use std::cell::RefCell;

use target_resolve::catalog::Catalog;
use target_resolve::target::call_for_targets;
use target_resolve::target::call_for_targets_with_fallback;
use target_resolve::target::get_targets;
use target_resolve::target::TargetTrait;

type NoFallback = fn(()) -> Option<&'static IosTarget>;

#[derive(Debug, PartialEq)]
struct IosTarget {
    triple: &'static str,
    arch: &'static str,
}

impl TargetTrait for IosTarget {
    fn default_key() -> &'static str {
        "aarch64-ios"
    }

    fn all() -> &'static Catalog<IosTarget> {
        let mut c: Catalog<IosTarget> = Catalog::new();
        c.insert(
            String::from("x86_64-ios"),
            IosTarget { triple: "x86_64-apple-ios", arch: "x86_64" },
        );
        c.insert(
            String::from("aarch64-ios"),
            IosTarget { triple: "aarch64-apple-ios", arch: "arm64" },
        );
        Box::leak(Box::new(c))
    }

    fn triple(&self) -> &str {
        self.triple
    }

    fn arch(&self) -> &str {
        self.arch
    }

    fn rustup_add(&self) -> into_result::command::Result<()> {
        Ok(())
    }
}

/// Two entries that share one architecture string, to pin the tie-break.
#[derive(Debug, PartialEq)]
struct SharedArchTarget {
    triple: &'static str,
    arch: &'static str,
}

impl TargetTrait for SharedArchTarget {
    fn default_key() -> &'static str {
        "zz-sim"
    }

    fn all() -> &'static Catalog<SharedArchTarget> {
        let mut c: Catalog<SharedArchTarget> = Catalog::new();
        c.insert(
            String::from("zz-sim"),
            SharedArchTarget { triple: "zz-apple-sim", arch: "arm64" },
        );
        c.insert(
            String::from("aa-dev"),
            SharedArchTarget { triple: "aa-apple-dev", arch: "arm64" },
        );
        Box::leak(Box::new(c))
    }

    fn triple(&self) -> &str {
        self.triple
    }

    fn arch(&self) -> &str {
        self.arch
    }

    fn rustup_add(&self) -> into_result::command::Result<()> {
        Ok(())
    }
}

fn names(list: &[&str]) -> Vec<String> {
    list.iter().map(|s| String::from(*s)).collect()
}

#[test]
fn for_name_finds_an_entry() {
    let t = IosTarget::for_name("x86_64-ios").expect("entry exists");
    assert_eq!(t.triple(), "x86_64-apple-ios");
    assert_eq!(t.arch(), "x86_64");
    assert!(IosTarget::for_name("bogus").is_none());
}

#[test]
fn for_arch_finds_an_entry() {
    let t = IosTarget::for_arch("arm64").expect("entry exists");
    assert_eq!(t.triple(), "aarch64-apple-ios");
    assert!(IosTarget::for_arch("riscv").is_none());
}

#[test]
fn for_arch_tie_goes_to_the_earlier_key() {
    // both entries carry "arm64"; "aa-dev" sorts before "zz-sim"
    let t = SharedArchTarget::for_arch("arm64").expect("entry exists");
    assert_eq!(t.triple(), "aa-apple-dev");
}

#[test]
fn default_ref_is_the_entry_at_the_default_key() {
    let t = IosTarget::default_ref();
    assert_eq!(t.triple(), "aarch64-apple-ios");
    assert_eq!(t, IosTarget::for_name("aarch64-ios").unwrap());
}

#[test]
fn requested_names_resolve_in_request_order() {
    let req = names(&["x86_64-ios", "aarch64-ios"]);
    let resolved = get_targets::<IosTarget, (), NoFallback>(&req, None).expect("all names valid");
    assert_eq!(resolved.len(), 2);
    assert_eq!(resolved[0].triple(), "x86_64-apple-ios");
    assert_eq!(resolved[1].triple(), "aarch64-apple-ios");
}

#[test]
fn one_requested_name_resolves_to_that_entry() {
    let req = names(&["x86_64-ios"]);
    let resolved = get_targets::<IosTarget, (), NoFallback>(&req, None).expect("name is valid");
    assert_eq!(resolved.len(), 1);
    assert_eq!(resolved[0].arch(), "x86_64");
}

#[test]
fn unknown_name_fails_and_lists_every_valid_name() {
    let req = names(&["bogus"]);
    let err = get_targets::<IosTarget, (), NoFallback>(&req, None).expect_err("name is invalid");
    assert_eq!(err.name(), "bogus");
    assert_eq!(err.possible(), &vec!["aarch64-ios", "x86_64-ios"]);
}

#[test]
fn first_unknown_name_is_reported_even_after_valid_ones() {
    let req = names(&["aarch64-ios", "nope", "also-nope"]);
    let err = get_targets::<IosTarget, (), NoFallback>(&req, None).expect_err("a name is invalid");
    assert_eq!(err.name(), "nope");
    assert_eq!(err.possible(), &vec!["aarch64-ios", "x86_64-ios"]);
}

#[test]
fn error_renders_the_name_and_the_valid_list() {
    let req = names(&["bogus"]);
    let err = get_targets::<IosTarget, (), NoFallback>(&req, None).expect_err("name is invalid");
    assert_eq!(
        err.display_string(),
        "Target \"bogus\" is invalid; the possible targets are [\"aarch64-ios\", \"x86_64-ios\"]",
    );
}

#[test]
fn empty_request_without_fallback_returns_the_default() {
    let req: Vec<String> = Vec::new();
    let resolved = get_targets::<IosTarget, (), NoFallback>(&req, None).expect("default applies");
    assert_eq!(resolved.len(), 1);
    assert_eq!(resolved[0].triple(), "aarch64-apple-ios");
}

#[test]
fn empty_request_uses_the_fallback_value() {
    let req: Vec<String> = Vec::new();
    let fallback = |_: ()| IosTarget::for_name("x86_64-ios");
    let resolved = get_targets(&req, Some((fallback, ()))).expect("fallback applies");
    assert_eq!(resolved.len(), 1);
    assert_eq!(resolved[0].triple(), "x86_64-apple-ios");
}

#[test]
fn empty_request_with_empty_fallback_returns_the_default() {
    let req: Vec<String> = Vec::new();
    let fallback = |_: ()| -> Option<&'static IosTarget> { None };
    let resolved = get_targets(&req, Some((fallback, ()))).expect("default applies");
    assert_eq!(resolved.len(), 1);
    assert_eq!(resolved[0].triple(), "aarch64-apple-ios");
}

#[test]
fn fallback_receives_its_argument() {
    let req: Vec<String> = Vec::new();
    let fallback = |wanted: &str| IosTarget::for_name(wanted);
    let resolved = get_targets(&req, Some((fallback, "x86_64-ios"))).expect("fallback applies");
    assert_eq!(resolved.len(), 1);
    assert_eq!(resolved[0].triple(), "x86_64-apple-ios");
}

#[test]
fn call_for_targets_applies_the_action_in_order() {
    let req = names(&["x86_64-ios", "aarch64-ios"]);
    let seen: RefCell<Vec<String>> = RefCell::new(Vec::new());
    let r = call_for_targets(&req, |t: &'static IosTarget| {
        seen.borrow_mut().push(String::from(t.triple()));
    });
    assert!(r.is_ok());
    assert_eq!(*seen.borrow(), vec!["x86_64-apple-ios", "aarch64-apple-ios"]);
}

#[test]
fn call_for_targets_runs_no_action_on_an_unknown_name() {
    let req = names(&["aarch64-ios", "bogus"]);
    let seen: RefCell<Vec<String>> = RefCell::new(Vec::new());
    let r = call_for_targets(&req, |t: &'static IosTarget| {
        seen.borrow_mut().push(String::from(t.triple()));
    });
    let err = r.expect_err("a name is invalid");
    assert_eq!(err.name(), "bogus");
    assert!(seen.borrow().is_empty());
}

#[test]
fn call_for_targets_empty_request_acts_on_the_default() {
    let req: Vec<String> = Vec::new();
    let seen: RefCell<Vec<String>> = RefCell::new(Vec::new());
    let r = call_for_targets(&req, |t: &'static IosTarget| {
        seen.borrow_mut().push(String::from(t.triple()));
    });
    assert!(r.is_ok());
    assert_eq!(*seen.borrow(), vec!["aarch64-apple-ios"]);
}

#[test]
fn call_with_fallback_prefers_the_fallback_value() {
    let req: Vec<String> = Vec::new();
    let seen: RefCell<Vec<String>> = RefCell::new(Vec::new());
    let fallback = |_: ()| IosTarget::for_name("x86_64-ios");
    let r = call_for_targets_with_fallback(&req, fallback, (), |t: &'static IosTarget| {
        seen.borrow_mut().push(String::from(t.triple()));
    });
    assert!(r.is_ok());
    assert_eq!(*seen.borrow(), vec!["x86_64-apple-ios"]);
}

#[test]
fn call_with_fallback_propagates_the_error_unchanged() {
    let req = names(&["bogus"]);
    let seen: RefCell<Vec<String>> = RefCell::new(Vec::new());
    let fallback = |_: ()| IosTarget::for_name("x86_64-ios");
    let r = call_for_targets_with_fallback(&req, fallback, (), |t: &'static IosTarget| {
        seen.borrow_mut().push(String::from(t.triple()));
    });
    let err = r.expect_err("a name is invalid");
    assert_eq!(err.name(), "bogus");
    assert_eq!(err.possible(), &vec!["aarch64-ios", "x86_64-ios"]);
    assert!(seen.borrow().is_empty());
}

#[test]
fn provisioning_hook_propagates_its_result() {
    let t = IosTarget::default_ref();
    assert!(t.rustup_add().is_ok());
}
