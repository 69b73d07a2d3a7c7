//! Build profiles, the target capability trait, and target-name resolution.

use vstd::prelude::*;

use crate::catalog::Catalog;
use crate::catalog::lex_lt;
use crate::catalog::seq_has_key;
use crate::catalog::seq_keys;
use crate::catalog::seq_sorted;
use crate::catalog::seq_value_of;
use crate::catalog::str_eq;
use vstd::pervasive::unreached;

verus! {

/// A two-valued build configuration tag: debug or release.
#[derive(Clone, Copy, Debug, Eq, PartialEq, Structural)]
pub enum Profile {
    Debug,
    Release,
}

impl Profile {
    /// The fixed lowercase rendering of the profile.
    pub open spec fn spec_str(self) -> Seq<char> {
        match self {
            Profile::Debug => "debug"@,
            Profile::Release => "release"@,
        }
    }

    pub fn is_debug(self) -> (r: bool)
        ensures
            r == (self is Debug),
    {
        self == Profile::Debug
    }

    pub fn is_release(self) -> (r: bool)
        ensures
            r == (self is Release),
    {
        self == Profile::Release
    }

    pub fn as_str(&self) -> (r: &'static str)
        ensures
            r@ == self.spec_str(),
    {
        match self {
            Profile::Debug => "debug",
            Profile::Release => "release",
        }
    }
}

/// A character sequence wrapped in double quotes.
pub open spec fn quoted(s: Seq<char>) -> Seq<char> {
    "\""@ + s + "\""@
}

/// The quoted keys joined with `", "`, in order.
pub open spec fn joined_keys(keys: Seq<Seq<char>>) -> Seq<char>
    decreases keys.len(),
{
    if keys.len() == 0 {
        Seq::<char>::empty()
    } else if keys.len() == 1 {
        quoted(keys[0])
    } else {
        joined_keys(keys.drop_last()) + ", "@ + quoted(keys.last())
    }
}

/// The diagnostic text for an invalid target name: the offending name, quoted,
/// and the list of all valid names.
pub open spec fn rendered_message(name: Seq<char>, possible: Seq<Seq<char>>) -> Seq<char> {
    "Target \""@ + name + "\" is invalid; the possible targets are ["@ + joined_keys(possible)
        + "]"@
}

proof fn lemma_joined_keys_step(keys: Seq<Seq<char>>, i: int)
    requires
        0 <= i < keys.len(),
    ensures
        joined_keys(keys.take(i + 1)) == if i == 0 {
            quoted(keys[0])
        } else {
            joined_keys(keys.take(i)) + ", "@ + quoted(keys[i])
        },
{
    let t = keys.take(i + 1);
    assert(t.len() == i + 1);
    if i == 0 {
        assert(t[0] == keys[0]);
    } else {
        assert(t.drop_last() =~= keys.take(i));
        assert(t.last() == keys[i]);
    }
}

/// The error reported when a requested target name matches no catalog entry.
/// It carries the offending name and a snapshot of every valid name.
#[derive(Debug)]
pub struct TargetInvalid {
    name: String,
    possible: Vec<&'static str>,
}

impl TargetInvalid {
    /// The requested name that matched nothing.
    pub closed spec fn spec_name(self) -> Seq<char> {
        self.name@
    }

    /// The valid names, in catalog order.
    pub closed spec fn spec_possible(self) -> Seq<Seq<char>> {
        self.possible@.map_values(|s: &'static str| s@)
    }

    pub fn name(&self) -> (r: &str)
        ensures
            r@ == self.spec_name(),
    {
        self.name.as_str()
    }

    pub fn possible(&self) -> (r: &Vec<&'static str>)
        ensures
            r@.len() == self.spec_possible().len(),
            forall|i: int| 0 <= i < r@.len() ==> (#[trigger] r@[i])@ == self.spec_possible()[i],
    {
        &self.possible
    }

    /// The human-readable rendering of the error.
    pub fn display_string(&self) -> (r: String)
        ensures
            r@ == rendered_message(self.spec_name(), self.spec_possible()),
    {
        let ghost keys = self.spec_possible();
        let mut s = String::new();
        s.append("Target \"");
        s.append(self.name.as_str());
        s.append("\" is invalid; the possible targets are [");
        let ghost head = "Target \""@ + self.spec_name()
            + "\" is invalid; the possible targets are ["@;
        proof {
            assert(s@ =~= head);
            assert(keys.take(0) =~= Seq::<Seq<char>>::empty());
        }
        let n = self.possible.len();
        let mut i: usize = 0;
        while i < n
            invariant
                n == self.possible@.len(),
                keys == self.spec_possible(),
                head == "Target \""@ + self.spec_name()
                    + "\" is invalid; the possible targets are ["@,
                0 <= i <= n,
                s@ == head + joined_keys(keys.take(i as int)),
            decreases n - i,
        {
            if i > 0 {
                s.append(", ");
            }
            s.append("\"");
            s.append(self.possible[i]);
            s.append("\"");
            proof {
                lemma_joined_keys_step(keys, i as int);
                assert((self.possible@[i as int])@ == keys[i as int]);
                assert(s@ =~= head + joined_keys(keys.take(i as int + 1)));
            }
            i += 1;
        }
        s.append("]");
        proof {
            assert(keys.take(n as int) =~= keys);
            assert(s@ =~= rendered_message(self.spec_name(), self.spec_possible()));
        }
        s
    }
}

/// Declares `into_result::command::Error`, the failure of an externally run
/// command (it failed to spawn, could not be waited on, or exited
/// unsuccessfully). The provisioning hook hands it to the caller unchanged;
/// this library never constructs or inspects one.
#[verifier::external_type_specification]
#[verifier::external_body]
pub struct ExCommandError(into_result::command::Error);

/// The capability interface that every concrete target-catalog type offers:
/// a catalog of named targets with a designated default entry, lookup by
/// name and by architecture, and a provisioning hook.
///
/// The four spec functions are the type's mathematical description: the
/// catalog as an association sequence in ascending key order, the default
/// entry's key, and each entry's triple and architecture identifiers. The
/// executable methods `all`, `default_key`, `triple` and `arch` must return
/// exactly those values; the provided lookups are then verified against them
/// once, here, for every implementation. Each spec function defaults to an
/// unconstrained value, so an implementation written outside the verifier
/// needs only the executable methods; a verified implementation overrides
/// the spec functions with its catalog's actual description.
pub trait TargetTrait: Sized + 'static {
    /// The catalog's entries, keyed by unique names, in ascending key order.
    closed spec fn spec_all() -> Seq<(Seq<char>, Self)> {
        arbitrary()
    }

    /// The name of the catalog's default entry.
    closed spec fn spec_default_key() -> Seq<char> {
        arbitrary()
    }

    /// The target's platform triple identifier.
    closed spec fn spec_triple(&self) -> Seq<char> {
        arbitrary()
    }

    /// The target's architecture identifier (not necessarily unique).
    closed spec fn spec_arch(&self) -> Seq<char> {
        arbitrary()
    }


    /// The name of the default entry. A well-formed catalog has an entry
    /// under this key; its absence is the catalog author's error.
    fn default_key() -> (r: &'static str)
        ensures
            r@ == Self::spec_default_key(),
    ;

    /// The full catalog. It is conceptually a process-wide constant: every
    /// call returns the same well-formed catalog.
    fn all() -> (r: &'static Catalog<Self>)
        ensures
            r.wf(),
            r@ == Self::spec_all(),
    ;

    fn triple(&self) -> (r: &str)
        ensures
            r@ == self.spec_triple(),
    ;

    fn arch(&self) -> (r: &str)
        ensures
            r@ == self.spec_arch(),
    ;

    /// Provisioning hook: ensure that toolchain support for this target is
    /// installed. It delegates to an external command runner, so the work and
    /// its failure are out of this library's scope; the implementor must
    /// propagate the command's failure, not swallow it.
    fn rustup_add(&self) -> into_result::command::Result<()>;

    /// The catalog's default entry. Requiring the default key to be present
    /// makes the lookup total; a catalog that lacks it is defective and its
    /// author's error, not a runtime condition.
    fn default_ref() -> (r: &'static Self)
        requires
            seq_has_key(Self::spec_all(), Self::spec_default_key()),
        ensures
            *r == seq_value_of(Self::spec_all(), Self::spec_default_key()),
    {
        let cat = Self::all();
        match cat.get(Self::default_key()) {
            Some(t) => t,
            None => unreached(),
        }
    }

    /// Exact-match lookup by target name.
    fn for_name(name: &str) -> (r: Option<&'static Self>)
        ensures
            match r {
                Some(t) => seq_has_key(Self::spec_all(), name@) && *t == seq_value_of(
                    Self::spec_all(),
                    name@,
                ),
                None => !seq_has_key(Self::spec_all(), name@),
            },
    {
        Self::all().get(name)
    }

    /// Lookup by architecture identifier: the first entry, in catalog (key)
    /// order, whose architecture equals `arch`. Architectures need not be
    /// unique, so ties go to the entry with the earliest key.
    fn for_arch(arch: &str) -> (r: Option<&'static Self>)
        ensures
            match r {
                Some(t) => exists|i: int|
                    #![trigger Self::spec_all()[i].1.spec_arch()]
                    0 <= i < Self::spec_all().len() && Self::spec_all()[i].1.spec_arch() == arch@
                        && (forall|j: int|
                        #![trigger Self::spec_all()[j].1.spec_arch()]
                        0 <= j < i ==> Self::spec_all()[j].1.spec_arch() != arch@) && *t
                        == Self::spec_all()[i].1,
                None => forall|i: int|
                    #![trigger Self::spec_all()[i].1.spec_arch()]
                    0 <= i < Self::spec_all().len() ==> Self::spec_all()[i].1.spec_arch() != arch@,
            },
    {
        let cat = Self::all();
        let n = cat.len();
        let mut i: usize = 0;
        while i < n
            invariant
                cat@ == Self::spec_all(),
                n == cat@.len(),
                0 <= i <= n,
                forall|j: int|
                    #![trigger Self::spec_all()[j].1.spec_arch()]
                    0 <= j < i ==> Self::spec_all()[j].1.spec_arch() != arch@,
            decreases n - i,
        {
            let t = cat.value_at(i);
            if str_eq(t.arch(), arch) {
                proof {
                    assert(Self::spec_all()[i as int].1.spec_arch() == arch@);
                }
                return Some(t);
            }
            proof {
                assert(Self::spec_all()[i as int].1.spec_arch() != arch@);
            }
            i += 1;
        }
        None
    }
}

/// Every requested name has an entry in `T`'s catalog.
pub open spec fn all_names_valid<T: TargetTrait>(names: Seq<String>) -> bool {
    forall|i: int| 0 <= i < names.len() ==> seq_has_key(T::spec_all(), (#[trigger] names[i])@)
}

/// `e` reports the first requested name that has no entry in `T`'s catalog,
/// and lists the catalog's keys as the valid names.
pub open spec fn is_resolution_error<T: TargetTrait>(names: Seq<String>, e: TargetInvalid) -> bool {
    &&& exists|j: int|
        {
            &&& 0 <= j < names.len()
            &&& !seq_has_key(T::spec_all(), (#[trigger] names[j])@)
            &&& e.spec_name() == names[j]@
            &&& forall|i: int|
                0 <= i < j ==> seq_has_key(T::spec_all(), (#[trigger] names[i])@)
        }
    &&& e.spec_possible() == seq_keys(T::spec_all())
}

/// Resolve each requested name, in order; fail on the first unknown name
/// without resolving past it.
fn resolve_names<T: TargetTrait>(targets: &Vec<String>) -> (r: Result<
    Vec<&'static T>,
    TargetInvalid,
>)
    ensures
        match r {
            Ok(v) => all_names_valid::<T>(targets@) && v@.len() == targets@.len() && (forall|
                i: int,
            |
                0 <= i < v@.len() ==> *(#[trigger] v@[i]) == seq_value_of(
                    T::spec_all(),
                    targets@[i]@,
                )),
            Err(e) => is_resolution_error::<T>(targets@, e),
        },
{
    let n = targets.len();
    let mut out: Vec<&'static T> = Vec::new();
    let mut idx: usize = 0;
    while idx < n
        invariant
            n == targets@.len(),
            0 <= idx <= n,
            out@.len() == idx,
            forall|i: int| 0 <= i < idx ==> seq_has_key(T::spec_all(), (#[trigger] targets@[i])@),
            forall|i: int|
                0 <= i < idx ==> *(#[trigger] out@[i]) == seq_value_of(
                    T::spec_all(),
                    targets@[i]@,
                ),
        decreases n - idx,
    {
        let name: &String = &targets[idx];
        match T::for_name(name.as_str()) {
            Some(t) => {
                out.push(t);
            },
            None => {
                let possible = T::all().keys();
                let e = TargetInvalid { name: name.clone(), possible };
                proof {
                    assert(e.spec_possible() =~= seq_keys(T::spec_all()));
                    assert(!seq_has_key(T::spec_all(), targets@[idx as int]@));
                }
                return Err(e);
            },
        }
        idx += 1;
    }
    Ok(out)
}

/// The one-element resolved sequence holding the catalog's default entry.
fn default_singleton<T: TargetTrait>() -> (r: Vec<&'static T>)
    requires
        seq_has_key(T::spec_all(), T::spec_default_key()),
    ensures
        r@.len() == 1,
        *r@[0] == seq_value_of(T::spec_all(), T::spec_default_key()),
{
    let mut v: Vec<&'static T> = Vec::new();
    v.push(T::default_ref());
    v
}

/// Resolve requested target names against `T`'s catalog.
///
/// A non-empty request resolves every name, in request order, or fails on the
/// first unknown name with a `TargetInvalid` naming it and listing every
/// valid name; no partial result is returned. An empty request consults the
/// fallback function, when one is supplied, and otherwise (or when the
/// fallback yields nothing) falls back on the catalog's default entry.
pub fn get_targets<T: TargetTrait, U, F: Fn(U) -> Option<&'static T>>(
    targets: &Vec<String>,
    fallback: Option<(F, U)>,
) -> (r: Result<Vec<&'static T>, TargetInvalid>)
    requires
        match fallback {
            Some(fb) => targets@.len() == 0 ==> call_requires(fb.0, (fb.1,)),
            None => true,
        },
        targets@.len() == 0 ==> seq_has_key(T::spec_all(), T::spec_default_key()),
    ensures
        match r {
            Ok(v) => if targets@.len() == 0 {
                v@.len() == 1 && match fallback {
                    Some(fb) => call_ensures(fb.0, (fb.1,), Some(v@[0])) || (call_ensures(
                        fb.0,
                        (fb.1,),
                        Option::<&'static T>::None,
                    ) && *v@[0] == seq_value_of(T::spec_all(), T::spec_default_key())),
                    None => *v@[0] == seq_value_of(T::spec_all(), T::spec_default_key()),
                }
            } else {
                all_names_valid::<T>(targets@) && v@.len() == targets@.len() && (forall|i: int|
                    0 <= i < v@.len() ==> *(#[trigger] v@[i]) == seq_value_of(
                        T::spec_all(),
                        targets@[i]@,
                    ))
            },
            Err(e) => targets@.len() > 0 && is_resolution_error::<T>(targets@, e),
        },
        targets@.len() == 0 ==> r is Ok,
        all_names_valid::<T>(targets@) ==> r is Ok,
{
    if targets.len() != 0 {
        resolve_names::<T>(targets)
    } else {
        match fallback {
            Some((get_target, arg)) => match get_target(arg) {
                Some(t) => {
                    let mut v: Vec<&'static T> = Vec::new();
                    v.push(t);
                    Ok(v)
                },
                None => Ok(default_singleton::<T>()),
            },
            None => Ok(default_singleton::<T>()),
        }
    }
}

/// Apply `f` to each resolved target, in order.
fn apply_to_all<T: TargetTrait, G: Fn(&'static T)>(resolved: &Vec<&'static T>, f: &G)
    requires
        forall|t: &'static T| call_requires(*f, (t,)),
    ensures
        forall|j: int| 0 <= j < resolved@.len() ==> call_ensures(*f, ((#[trigger] resolved@[j]),), ()),
{
    let n = resolved.len();
    let mut i: usize = 0;
    while i < n
        invariant
            n == resolved@.len(),
            forall|t: &'static T| call_requires(*f, (t,)),
            0 <= i <= n,
            forall|j: int| 0 <= j < i ==> call_ensures(*f, ((#[trigger] resolved@[j]),), ()),
        decreases n - i,
    {
        f(resolved[i]);
        i += 1;
    }
}

/// Law: for an empty request, when the supplied fallback function can only
/// yield the target `t0`, any resolved sequence that `get_targets` may
/// return holds exactly `t0`; the catalog's default entry is not consulted.
/// The premises on `v` are `get_targets`' guarantees for an empty request
/// with a fallback.
pub proof fn lemma_empty_request_uses_fallback_value<
    T: TargetTrait,
    U,
    F: Fn(U) -> Option<&'static T>,
>(fb: F, arg: U, t0: &'static T, v: Vec<&'static T>)
    requires
        forall|ret: Option<&'static T>| call_ensures(fb, (arg,), ret) ==> ret == Some(t0),
        v@.len() == 1,
        call_ensures(fb, (arg,), Some(v@[0])) || (call_ensures(
            fb,
            (arg,),
            Option::<&'static T>::None,
        ) && *v@[0] == seq_value_of(T::spec_all(), T::spec_default_key())),
    ensures
        v@[0] == t0,
{
}

/// Law: for an empty request, when the supplied fallback function can only
/// yield nothing, any resolved sequence that `get_targets` may return holds
/// exactly the catalog's default entry. The premises on `v` are
/// `get_targets`' guarantees for an empty request with a fallback.
pub proof fn lemma_empty_request_falls_back_on_default<
    T: TargetTrait,
    U,
    F: Fn(U) -> Option<&'static T>,
>(fb: F, arg: U, v: Vec<&'static T>)
    requires
        forall|ret: Option<&'static T>| call_ensures(fb, (arg,), ret) ==> ret is None,
        v@.len() == 1,
        call_ensures(fb, (arg,), Some(v@[0])) || (call_ensures(
            fb,
            (arg,),
            Option::<&'static T>::None,
        ) && *v@[0] == seq_value_of(T::spec_all(), T::spec_default_key())),
    ensures
        *v@[0] == seq_value_of(T::spec_all(), T::spec_default_key()),
{
}

/// Law: in a well-formed catalog, the entry `for_arch` returns — the first
/// one, in catalog order, whose architecture matches — has a key
/// lexicographically earlier than the key of every other entry with the same
/// architecture. The premises on `i` are `for_arch`'s guarantees for a
/// returned entry at index `i`.
pub proof fn lemma_for_arch_prefers_earlier_key<T: TargetTrait>(arch: Seq<char>, i: int, j: int)
    requires
        seq_sorted(T::spec_all()),
        0 <= i < T::spec_all().len(),
        0 <= j < T::spec_all().len(),
        T::spec_all()[i].1.spec_arch() == arch,
        forall|k: int|
            #![trigger T::spec_all()[k].1.spec_arch()]
            0 <= k < i ==> T::spec_all()[k].1.spec_arch() != arch,
        T::spec_all()[j].1.spec_arch() == arch,
        i != j,
    ensures
        lex_lt(T::spec_all()[i].0, T::spec_all()[j].0),
{
    assert(i < j);
}

/// The action `f` has run (and returned) on a reference to the value `val`.
pub open spec fn action_ran_on<T: TargetTrait, G: Fn(&'static T)>(f: G, val: T) -> bool {
    exists|t: &'static T|
        #![trigger call_ensures(f, (t,), ())]
        *t == val && call_ensures(f, (t,), ())
}

/// Resolve the requested names with a caller-supplied fallback, then apply
/// `f` to each resolved target in order. A resolution error is returned
/// unchanged and `f` is not applied at all; `f` itself is assumed
/// non-failing at this layer.
pub fn call_for_targets_with_fallback<
    T: TargetTrait,
    U,
    F: Fn(U) -> Option<&'static T>,
    G: Fn(&'static T),
>(
    targets: &Vec<String>,
    fallback: F,
    arg: U,
    f: G,
) -> (r: Result<(), TargetInvalid>)
    requires
        targets@.len() == 0 ==> call_requires(fallback, (arg,)),
        targets@.len() == 0 ==> seq_has_key(T::spec_all(), T::spec_default_key()),
        forall|t: &'static T| call_requires(f, (t,)),
    ensures
        match r {
            Ok(u) => if targets@.len() == 0 {
                exists|t: &'static T|
                    #![trigger call_ensures(f, (t,), ())]
                    (call_ensures(fallback, (arg,), Some(t)) || (call_ensures(
                        fallback,
                        (arg,),
                        Option::<&'static T>::None,
                    ) && *t == seq_value_of(T::spec_all(), T::spec_default_key())))
                        && call_ensures(f, (t,), ())
            } else {
                all_names_valid::<T>(targets@) && (forall|i: int|
                    0 <= i < targets@.len() ==> action_ran_on::<T, G>(
                        f,
                        seq_value_of(T::spec_all(), (#[trigger] targets@[i])@),
                    ))
            },
            Err(e) => targets@.len() > 0 && is_resolution_error::<T>(targets@, e),
        },
        targets@.len() == 0 ==> r is Ok,
        all_names_valid::<T>(targets@) ==> r is Ok,
{
    let resolved = match get_targets(targets, Some((fallback, arg))) {
        Ok(v) => v,
        Err(e) => {
            return Err(e);
        },
    };
    apply_to_all::<T, G>(&resolved, &f);
    proof {
        if targets@.len() == 0 {
            assert(call_ensures(f, (resolved@[0],), ()));
        } else {
            assert forall|i: int| 0 <= i < targets@.len() implies action_ran_on::<T, G>(
                f,
                seq_value_of(T::spec_all(), (#[trigger] targets@[i])@),
            ) by {
                assert(call_ensures(f, (resolved@[i],), ()));
                assert(*resolved@[i] == seq_value_of(T::spec_all(), targets@[i]@));
            }
        }
    }
    Ok(())
}

/// Resolve the requested names with no fallback function (an empty request
/// falls back straight on the catalog's default entry), then apply `f` to
/// each resolved target in order. A resolution error is returned unchanged
/// and `f` is not applied at all.
pub fn call_for_targets<T: TargetTrait, G: Fn(&'static T)>(targets: &Vec<String>, f: G) -> (r:
    Result<(), TargetInvalid>)
    requires
        targets@.len() == 0 ==> seq_has_key(T::spec_all(), T::spec_default_key()),
        forall|t: &'static T| call_requires(f, (t,)),
    ensures
        match r {
            Ok(u) => if targets@.len() == 0 {
                exists|t: &'static T|
                    #![trigger call_ensures(f, (t,), ())]
                    *t == seq_value_of(T::spec_all(), T::spec_default_key()) && call_ensures(
                        f,
                        (t,),
                        (),
                    )
            } else {
                all_names_valid::<T>(targets@) && (forall|i: int|
                    0 <= i < targets@.len() ==> action_ran_on::<T, G>(
                        f,
                        seq_value_of(T::spec_all(), (#[trigger] targets@[i])@),
                    ))
            },
            Err(e) => targets@.len() > 0 && is_resolution_error::<T>(targets@, e),
        },
        targets@.len() == 0 ==> r is Ok,
        all_names_valid::<T>(targets@) ==> r is Ok,
{
    let resolved = if targets.len() != 0 {
        match resolve_names::<T>(targets) {
            Ok(v) => v,
            Err(e) => {
                return Err(e);
            },
        }
    } else {
        default_singleton::<T>()
    };
    apply_to_all::<T, G>(&resolved, &f);
    proof {
        if targets@.len() == 0 {
            assert(call_ensures(f, (resolved@[0],), ()));
        } else {
            assert forall|i: int| 0 <= i < targets@.len() implies action_ran_on::<T, G>(
                f,
                seq_value_of(T::spec_all(), (#[trigger] targets@[i])@),
            ) by {
                assert(call_ensures(f, (resolved@[i],), ()));
                assert(*resolved@[i] == seq_value_of(T::spec_all(), targets@[i]@));
            }
        }
    }
    Ok(())
}

} // verus!
