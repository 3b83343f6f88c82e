//! Detour binders: the capability to bind a target address, then enable and
//! disable a redirection installed there. A compile-time declared binder
//! (`StaticDetourBinder`) resolves its address once, by signature scan or
//! from a fixed address; a runtime binder (`NonstaticDetourBinder`) is handed
//! its address directly. Installing and removing the machine-level detour is
//! the embedder's work: the binder hands it a `HookAction` through a
//! dispatcher function and records the outcome.

use crate::hook_library::{HookAction, HookError};
use crate::module::Module;
use crate::pattern::{spec_find_from, spec_parse};
use vstd::prelude::*;

verus! {

/// How a compile-time binder resolves its target address.
pub enum BindSource {
    /// A fixed address known when the binder is declared.
    Fixed(usize),
    /// A byte-pattern signature resolved against a module by scanning.
    Signature(String),
}

/// The operations every binder offers, with the state every binder
/// exposes: whether it holds a resolved address and whether its detour is
/// installed. A runtime binder is bound from construction, so its `bind` is
/// knowably a successful no-op through this interface.
pub trait DetourBinder {
    /// Whether the binder holds a resolved target address.
    spec fn spec_bound(&self) -> bool;

    /// Whether the binder reports its detour installed.
    spec fn spec_installed(&self) -> bool;

    /// Resolves the target address, if not resolved yet; a binder that is
    /// already bound succeeds without touching the module.
    fn bind(&mut self, module: &mut Module) -> (r: Result<(), HookError>)
        requires
            old(module).wf(),
        ensures
            final(module).wf(),
            Module::same_image(*old(module), *final(module)),
            final(self).spec_installed() == old(self).spec_installed(),
            r is Ok ==> final(self).spec_bound(),
            old(self).spec_bound() ==> r is Ok && final(self).spec_bound() && *final(module)
                == *old(module),
            r matches Err(e) ==> e is BindFailed,
    ;

    /// Asks the embedder to install the redirection; an unbound binder is a
    /// caller error, surfaced as a failure that changes nothing.
    fn enable<F: Copy + Fn(HookAction) -> bool>(&mut self, dispatch: F) -> (r: Result<
        (),
        HookError,
    >)
        requires
            forall|a: HookAction| #[trigger] call_requires(dispatch, (a,)),
        ensures
            final(self).spec_bound() == old(self).spec_bound(),
            !old(self).spec_bound() ==> r is Err && final(self).spec_installed() == old(
                self,
            ).spec_installed(),
            old(self).spec_bound() ==> ((r is Ok && final(self).spec_installed()) || (r is Err
                && final(self).spec_installed() == old(self).spec_installed())),
    ;

    /// Asks the embedder to remove the redirection; an unbound binder is a
    /// caller error, surfaced as a failure that changes nothing.
    fn disable<F: Copy + Fn(HookAction) -> bool>(&mut self, dispatch: F) -> (r: Result<
        (),
        HookError,
    >)
        requires
            forall|a: HookAction| #[trigger] call_requires(dispatch, (a,)),
        ensures
            final(self).spec_bound() == old(self).spec_bound(),
            !old(self).spec_bound() ==> r is Err && final(self).spec_installed() == old(
                self,
            ).spec_installed(),
            old(self).spec_bound() ==> ((r is Ok && !final(self).spec_installed()) || (r is Err
                && final(self).spec_installed() == old(self).spec_installed())),
    ;
}

/// A compile-time declared binder: the address is resolved at most once,
/// lazily, and kept.
pub struct StaticDetourBinder {
    name: String,
    source: BindSource,
    bound: Option<usize>,
    enabled: bool,
}

impl StaticDetourBinder {
    /// The name the binder reports in errors.
    pub closed spec fn spec_name(self) -> Seq<char> {
        self.name@
    }

    /// The fixed address, if the binder was declared with one.
    pub closed spec fn fixed_source(self) -> Option<int> {
        match self.source {
            BindSource::Fixed(a) => Some(a as int),
            BindSource::Signature(_) => None,
        }
    }

    /// The signature, if the binder was declared with one.
    pub closed spec fn sig_source(self) -> Option<Seq<char>> {
        match self.source {
            BindSource::Fixed(_) => None,
            BindSource::Signature(ref p) => Some(p@),
        }
    }

    /// The signature's characters; the empty sequence for a fixed source.
    pub open spec fn sig_chars(self) -> Seq<char> {
        match self.sig_source() {
            Some(p) => p,
            None => Seq::empty(),
        }
    }

    /// The resolved address, once `bind` has succeeded.
    pub closed spec fn bound(self) -> Option<usize> {
        self.bound
    }

    /// Whether the redirection is currently installed.
    pub closed spec fn spec_enabled(self) -> bool {
        self.enabled
    }

    /// A binder whose source is a fixed address is bound to that address;
    /// a signature binder is unconstrained here.
    pub open spec fn fixed_bound_ok(pre: StaticDetourBinder, post: StaticDetourBinder) -> bool {
        match pre.fixed_source() {
            Some(a) => post.bound() == Some(a as usize),
            None => true,
        }
    }

    /// Name and address source are as declared.
    pub open spec fn same_identity(pre: StaticDetourBinder, post: StaticDetourBinder) -> bool {
        &&& post.spec_name() == pre.spec_name()
        &&& post.fixed_source() == pre.fixed_source()
        &&& post.sig_source() == pre.sig_source()
    }

    /// Declares a binder that resolves by scanning for `pattern`.
    pub fn from_signature(name: String, pattern: String) -> (r: StaticDetourBinder)
        ensures
            r.spec_name() == name@,
            r.sig_source() == Some(pattern@),
            r.fixed_source() is None,
            r.bound() is None,
            !r.spec_enabled(),
    {
        StaticDetourBinder { name, source: BindSource::Signature(pattern), bound: None, enabled: false }
    }

    /// Declares a binder with a fixed target address.
    pub fn from_address(name: String, address: usize) -> (r: StaticDetourBinder)
        ensures
            r.spec_name() == name@,
            r.fixed_source() == Some(address as int),
            r.sig_source() is None,
            r.bound() is None,
            !r.spec_enabled(),
    {
        StaticDetourBinder { name, source: BindSource::Fixed(address), bound: None, enabled: false }
    }

    /// The binder's name.
    pub fn name(&self) -> (r: &str)
        ensures
            r@ == self.spec_name(),
    {
        self.name.as_str()
    }

    /// The resolved address, if bound.
    pub fn bound_address(&self) -> (r: Option<usize>)
        ensures
            r == self.bound(),
    {
        self.bound
    }

    /// Whether the redirection is currently installed.
    pub fn is_enabled(&self) -> (r: bool)
        ensures
            r == self.spec_enabled(),
    {
        self.enabled
    }

    /// Resolves the target address at most once: a bound binder stays bound.
    /// A fixed source binds to its address; a signature is resolved with
    /// `Module::scan`, and a failed scan surfaces the binder's name.
    #[verifier::spinoff_prover]
    #[verifier::rlimit(50)]
    pub fn bind(&mut self, module: &mut Module) -> (r: Result<(), HookError>)
        requires
            old(module).wf(),
        ensures
            final(module).wf(),
            Module::same_image(*old(module), *final(module)),
            StaticDetourBinder::same_identity(*old(self), *final(self)),
            final(self).spec_enabled() == old(self).spec_enabled(),
            r is Ok ==> final(self).bound() is Some,
            r is Ok && old(self).bound() is None ==> StaticDetourBinder::fixed_bound_ok(
                *old(self),
                *final(self),
            ),
            r matches Err(e) ==> e is BindFailed,
            r is Err ==> old(self).bound() is None && old(self).sig_source() is Some
                && final(self).bound() is None,
            old(self).bound() is Some ==> final(self).bound() == old(self).bound() && r is Ok
                && *final(module) == *old(module),
            old(self).bound() is None ==> (old(self).fixed_source() matches Some(a) ==> r is Ok
                && final(self).bound() == Some(a as usize) && *final(module) == *old(module)),
            old(self).bound() is None && old(self).sig_source() is Some && r is Ok ==> (exists|
                a: usize,
            |
                (#[trigger] Module::scan_post(
                    *old(module),
                    *final(module),
                    vstd::utf8::encode_utf8(old(self).sig_chars()),
                    Ok(a),
                )) && final(self).bound() == Some(a)),
            old(self).bound() is None && old(self).sig_source() is Some && r is Ok
                ==> (final(self).bound() matches Some(a) && old(module).spec_base() <= a <= old(
                module,
            ).spec_base() + old(module).scan_source().len()),
            old(self).bound() is None && old(self).sig_source() is Some && r is Err
                ==> final(self).bound() is None,
            old(self).bound() is None && old(self).sig_source() is Some ==> (r matches Err(e)
                ==> (e matches HookError::BindFailed { name, cause }
                && name@ == old(self).spec_name() && Module::scan_post(
                *old(module),
                *final(module),
                vstd::utf8::encode_utf8(old(self).sig_chars()),
                Err(cause),
            ))),
    {
        if self.bound.is_some() {
            return Ok(());
        }
        match &self.source {
            BindSource::Fixed(a) => {
                let addr = *a;
                self.bound = Some(addr);
                Ok(())
            },
            BindSource::Signature(p) => {
                let scanned = module.scan(p.as_str());
                match scanned {
                    Ok(a) => {
                        proof {
                            assert(old(self).sig_chars() == p@);
                            assert(Module::scan_post(
                                *old(module),
                                *module,
                                vstd::utf8::encode_utf8(old(self).sig_chars()),
                                Ok(a),
                            ));
                            let m0 = *old(module);
                            let pb = vstd::utf8::encode_utf8(old(self).sig_chars());
                            assert(m0.scan_source().len() <= m0.live_image().len());
                            match spec_parse(pb) {
                                None => {
                                    assert(false);
                                },
                                Some(toks) => {
                                    match m0.cached_regular(toks) {
                                        Some(off) => {
                                            assert(a == (m0.spec_base() + off) as usize);
                                            assert(m0.spec_base() + off <= usize::MAX);
                                            assert(a == m0.spec_base() + off);
                                            assert(off <= m0.scan_source().len());
                                            assert(m0.spec_base() <= a <= m0.spec_base()
                                                + m0.scan_source().len());
                                        },
                                        None => {
                                            match spec_find_from(m0.scan_source(), toks, 0) {
                                                Some(m) => {
                                                    assert(a == (m0.spec_base() + m) as usize);
                                                    assert(m0.spec_base() + m <= usize::MAX);
                                                    assert(a == m0.spec_base() + m);
                                                    assert(0 <= m && m + toks.len()
                                                        <= m0.scan_source().len());
                                                    assert(m0.spec_base() <= a <= m0.spec_base()
                                                        + m0.scan_source().len());
                                                },
                                                None => {
                                                    assert(false);
                                                },
                                            }
                                        },
                                    }
                                },
                            }
                        }
                        self.bound = Some(a);
                        Ok(())
                    },
                    Err(cause) => {
                        proof {
                            assert(Module::scan_post(
                                *old(module),
                                *module,
                                vstd::utf8::encode_utf8(p@),
                                Err(cause),
                            ));
                        }
                        Err(HookError::BindFailed { name: self.name.clone(), cause })
                    },
                }
            },
        }
    }

    /// Asks the embedder to install the detour at the bound address; records
    /// the binder as enabled when the embedder reports success. Calling this
    /// before a successful `bind` is an ordering error, surfaced as a
    /// failure.
    pub fn enable<F: Copy + Fn(HookAction) -> bool>(&mut self, dispatch: F) -> (r: Result<
        (),
        HookError,
    >)
        requires
            forall|a: HookAction| #[trigger] call_requires(dispatch, (a,)),
        ensures
            StaticDetourBinder::same_identity(*old(self), *final(self)),
            final(self).bound() == old(self).bound(),
            match old(self).bound() {
                None => final(self).spec_enabled() == old(self).spec_enabled() && (r matches Err(
                    HookError::NotBound { name },
                ) && name@ == old(self).spec_name()),
                Some(addr) => (r is Ok && final(self).spec_enabled() && call_ensures(
                    dispatch,
                    (HookAction::EnableDetour(addr),),
                    true,
                )) || (
                final(self).spec_enabled() == old(self).spec_enabled() && r == Err::<(), HookError>(
                    HookError::ActionFailed { action: HookAction::EnableDetour(addr) },
                ) && call_ensures(dispatch, (HookAction::EnableDetour(addr),), false)),
            },
    {
        match self.bound {
            None => Err(HookError::NotBound { name: self.name.clone() }),
            Some(addr) => {
                if dispatch(HookAction::EnableDetour(addr)) {
                    self.enabled = true;
                    Ok(())
                } else {
                    Err(HookError::ActionFailed { action: HookAction::EnableDetour(addr) })
                }
            },
        }
    }

    /// Asks the embedder to remove the detour at the bound address; records
    /// the binder as disabled when the embedder reports success. Calling this
    /// before a successful `bind` is an ordering error, surfaced as a
    /// failure.
    pub fn disable<F: Copy + Fn(HookAction) -> bool>(&mut self, dispatch: F) -> (r: Result<
        (),
        HookError,
    >)
        requires
            forall|a: HookAction| #[trigger] call_requires(dispatch, (a,)),
        ensures
            StaticDetourBinder::same_identity(*old(self), *final(self)),
            final(self).bound() == old(self).bound(),
            match old(self).bound() {
                None => final(self).spec_enabled() == old(self).spec_enabled() && (r matches Err(
                    HookError::NotBound { name },
                ) && name@ == old(self).spec_name()),
                Some(addr) => (r is Ok && !final(self).spec_enabled() && call_ensures(
                    dispatch,
                    (HookAction::DisableDetour(addr),),
                    true,
                )) || (
                final(self).spec_enabled() == old(self).spec_enabled() && r == Err::<(), HookError>(
                    HookError::ActionFailed { action: HookAction::DisableDetour(addr) },
                ) && call_ensures(dispatch, (HookAction::DisableDetour(addr),), false)),
            },
    {
        match self.bound {
            None => Err(HookError::NotBound { name: self.name.clone() }),
            Some(addr) => {
                if dispatch(HookAction::DisableDetour(addr)) {
                    self.enabled = false;
                    Ok(())
                } else {
                    Err(HookError::ActionFailed { action: HookAction::DisableDetour(addr) })
                }
            },
        }
    }
}

/// A runtime binder: the caller supplies the resolved address directly, so
/// binding is a no-op.
pub struct NonstaticDetourBinder {
    address: usize,
    enabled: bool,
}

impl NonstaticDetourBinder {
    /// The address the binder toggles.
    pub closed spec fn spec_address(self) -> usize {
        self.address
    }

    /// Whether the redirection is currently installed.
    pub closed spec fn spec_enabled(self) -> bool {
        self.enabled
    }

    /// Declares a binder for an already-resolved address.
    pub fn new(address: usize) -> (r: NonstaticDetourBinder)
        ensures
            r.spec_address() == address,
            !r.spec_enabled(),
    {
        NonstaticDetourBinder { address, enabled: false }
    }

    /// The address the binder toggles.
    pub fn address(&self) -> (r: usize)
        ensures
            r == self.spec_address(),
    {
        self.address
    }

    /// Whether the redirection is currently installed.
    pub fn is_enabled(&self) -> (r: bool)
        ensures
            r == self.spec_enabled(),
    {
        self.enabled
    }

    /// Asks the embedder to install the detour; records the outcome.
    pub fn enable<F: Copy + Fn(HookAction) -> bool>(&mut self, dispatch: F) -> (r: Result<
        (),
        HookError,
    >)
        requires
            forall|a: HookAction| #[trigger] call_requires(dispatch, (a,)),
        ensures
            final(self).spec_address() == old(self).spec_address(),
            (r is Ok && final(self).spec_enabled() && call_ensures(
                dispatch,
                (HookAction::EnableDetour(old(self).spec_address()),),
                true,
            )) || (
            final(self).spec_enabled() == old(self).spec_enabled() && r == Err::<(), HookError>(
                HookError::ActionFailed {
                    action: HookAction::EnableDetour(old(self).spec_address()),
                },
            ) && call_ensures(
                dispatch,
                (HookAction::EnableDetour(old(self).spec_address()),),
                false,
            )),
    {
        if dispatch(HookAction::EnableDetour(self.address)) {
            self.enabled = true;
            Ok(())
        } else {
            Err(HookError::ActionFailed { action: HookAction::EnableDetour(self.address) })
        }
    }

    /// Asks the embedder to remove the detour; records the outcome.
    pub fn disable<F: Copy + Fn(HookAction) -> bool>(&mut self, dispatch: F) -> (r: Result<
        (),
        HookError,
    >)
        requires
            forall|a: HookAction| #[trigger] call_requires(dispatch, (a,)),
        ensures
            final(self).spec_address() == old(self).spec_address(),
            (r is Ok && !final(self).spec_enabled() && call_ensures(
                dispatch,
                (HookAction::DisableDetour(old(self).spec_address()),),
                true,
            )) || (
            final(self).spec_enabled() == old(self).spec_enabled() && r == Err::<(), HookError>(
                HookError::ActionFailed {
                    action: HookAction::DisableDetour(old(self).spec_address()),
                },
            ) && call_ensures(
                dispatch,
                (HookAction::DisableDetour(old(self).spec_address()),),
                false,
            )),
    {
        if dispatch(HookAction::DisableDetour(self.address)) {
            self.enabled = false;
            Ok(())
        } else {
            Err(HookError::ActionFailed { action: HookAction::DisableDetour(self.address) })
        }
    }
}

impl DetourBinder for StaticDetourBinder {
    open spec fn spec_bound(&self) -> bool {
        self.bound() is Some
    }

    open spec fn spec_installed(&self) -> bool {
        self.spec_enabled()
    }

    fn bind(&mut self, module: &mut Module) -> Result<(), HookError> {
        StaticDetourBinder::bind(self, module)
    }

    fn enable<F: Copy + Fn(HookAction) -> bool>(&mut self, dispatch: F) -> Result<(), HookError> {
        StaticDetourBinder::enable(self, dispatch)
    }

    fn disable<F: Copy + Fn(HookAction) -> bool>(&mut self, dispatch: F) -> Result<(), HookError> {
        StaticDetourBinder::disable(self, dispatch)
    }
}

impl DetourBinder for NonstaticDetourBinder {
    open spec fn spec_bound(&self) -> bool {
        true
    }

    open spec fn spec_installed(&self) -> bool {
        self.spec_enabled()
    }

    fn bind(&mut self, _module: &mut Module) -> Result<(), HookError> {
        Ok(())
    }

    fn enable<F: Copy + Fn(HookAction) -> bool>(&mut self, dispatch: F) -> Result<(), HookError> {
        NonstaticDetourBinder::enable(self, dispatch)
    }

    fn disable<F: Copy + Fn(HookAction) -> bool>(&mut self, dispatch: F) -> Result<(), HookError> {
        NonstaticDetourBinder::disable(self, dispatch)
    }
}

} // verus!
