use vstd::prelude::*;

verus! {

/// The four supported external document-compilation engines.
#[derive(Clone, Copy, PartialEq, Eq, Structural, Debug)]
pub enum Engine {
    Tectonic,
    Latexmk,
    Pdflatex,
    Lualatex,
}

/// No candidate engine binary is installed: a terminal condition, the
/// caller must install tooling.
#[derive(Clone, Copy, PartialEq, Eq, Structural, Debug)]
pub struct EngineNotFoundError;

/// Position of an engine in the fixed candidate table.
pub open spec fn engine_index(e: Engine) -> int {
    match e {
        Engine::Tectonic => 0,
        Engine::Latexmk => 1,
        Engine::Pdflatex => 2,
        Engine::Lualatex => 3,
    }
}

/// The probe order for a preference: the preferred engine first, then the
/// remaining three candidates in a fixed fallback order.
pub open spec fn spec_order(pref: Engine) -> Seq<Engine> {
    match pref {
        Engine::Tectonic => seq![Engine::Tectonic, Engine::Latexmk, Engine::Pdflatex, Engine::Lualatex],
        Engine::Latexmk => seq![Engine::Latexmk, Engine::Tectonic, Engine::Pdflatex, Engine::Lualatex],
        Engine::Pdflatex => seq![Engine::Pdflatex, Engine::Latexmk, Engine::Tectonic, Engine::Lualatex],
        Engine::Lualatex => seq![Engine::Lualatex, Engine::Latexmk, Engine::Tectonic, Engine::Pdflatex],
    }
}

/// First engine of `order` whose availability flag is set, if any.
pub open spec fn first_available(order: Seq<Engine>, avail: Seq<bool>) -> Option<Engine>
    decreases order.len(),
{
    if order.len() == 0 {
        None
    } else if avail[engine_index(order[0])] {
        Some(order[0])
    } else {
        first_available(order.skip(1), avail)
    }
}

/// What resolution returns for a preference, given the availability of the
/// four candidates (indexed by `engine_index`).
pub open spec fn resolve_spec(pref: Engine, avail: Seq<bool>) -> Result<Engine, EngineNotFoundError> {
    match first_available(spec_order(pref), avail) {
        Some(e) => Ok(e),
        None => Err(EngineNotFoundError),
    }
}

/// The complete candidate order for a preference, preferred engine first.
pub fn fallback_order(pref: Engine) -> (r: [Engine; 4])
    ensures
        r@ == spec_order(pref),
{
    let r = match pref {
        Engine::Tectonic => [Engine::Tectonic, Engine::Latexmk, Engine::Pdflatex, Engine::Lualatex],
        Engine::Latexmk => [Engine::Latexmk, Engine::Tectonic, Engine::Pdflatex, Engine::Lualatex],
        Engine::Pdflatex => [Engine::Pdflatex, Engine::Latexmk, Engine::Tectonic, Engine::Lualatex],
        Engine::Lualatex => [Engine::Lualatex, Engine::Latexmk, Engine::Tectonic, Engine::Pdflatex],
    };
    proof {
        assert(r@ =~= spec_order(pref));
    }
    r
}

/// Resolution against known availability flags: the first candidate of the
/// preference's order whose flag is set, or failure when none is.
pub fn resolve_from(pref: Engine, avail: &[bool; 4]) -> (r: Result<Engine, EngineNotFoundError>)
    ensures
        r == resolve_spec(pref, avail@),
{
    let order = fallback_order(pref);
    proof {
        assert(order@.skip(0) =~= order@);
    }
    let mut i: usize = 0;
    while i < 4
        invariant
            i <= 4,
            order@ == spec_order(pref),
            avail@.len() == 4,
            first_available(spec_order(pref), avail@) == first_available(order@.skip(i as int), avail@),
        decreases 4 - i,
    {
        let e = order[i];
        let idx = engine_slot(e);
        if avail[idx] {
            return Ok(e);
        }
        proof {
            assert(order@.skip(i as int).skip(1) =~= order@.skip(i + 1));
        }
        i = i + 1;
    }
    Err(EngineNotFoundError)
}

/// The executable name of an engine's binary.
pub open spec fn spec_name(e: Engine) -> Seq<char> {
    match e {
        Engine::Tectonic => "tectonic"@,
        Engine::Latexmk => "latexmk"@,
        Engine::Pdflatex => "pdflatex"@,
        Engine::Lualatex => "lualatex"@,
    }
}

/// The name under which an engine's binary is looked up and invoked.
pub fn engine_name(e: Engine) -> (r: &'static str)
    ensures
        r@ == spec_name(e),
{
    match e {
        Engine::Tectonic => "tectonic",
        Engine::Latexmk => "latexmk",
        Engine::Pdflatex => "pdflatex",
        Engine::Lualatex => "lualatex",
    }
}

/// Relies on which::which: `Ok` exactly when an executable of that name is
/// present on the system search path. The outcome depends on the machine,
/// so nothing is stated of it.
#[verifier::external_body]
fn binary_available(name: &str) -> bool {
    which::which(name).is_ok()
}

/// Resolve a preference by probing the four candidate binaries on the
/// system and taking the first available one in the preference's order.
pub fn resolve(pref: Engine) -> (r: Result<Engine, EngineNotFoundError>)
    ensures
        r matches Ok(e) ==> spec_order(pref).contains(e),
{
    let avail: [bool; 4] = [
        binary_available(engine_name(Engine::Tectonic)),
        binary_available(engine_name(Engine::Latexmk)),
        binary_available(engine_name(Engine::Pdflatex)),
        binary_available(engine_name(Engine::Lualatex)),
    ];
    let r = resolve_from(pref, &avail);
    proof {
        lemma_first_available_contains(spec_order(pref), avail@);
    }
    r
}

proof fn lemma_first_available_contains(order: Seq<Engine>, avail: Seq<bool>)
    ensures
        match first_available(order, avail) {
            Some(e) => order.contains(e),
            None => true,
        },
    decreases order.len(),
{
    if order.len() == 0 {
    } else if avail[engine_index(order[0])] {
        assert(order.contains(order[0]));
    } else {
        lemma_first_available_contains(order.skip(1), avail);
        match first_available(order.skip(1), avail) {
            Some(e) => {
                let k = choose|k: int| 0 <= k < order.skip(1).len() && order.skip(1)[k] == e;
                assert(order[k + 1] == e);
                assert(order.contains(e));
            },
            None => {},
        }
    }
}

/// Law: resolution never leaves the preference's candidate list; that list
/// holds each of the four engines exactly once, with the preferred engine
/// first; and a preferred engine that is available is the one resolved.
pub proof fn lemma_resolve_within_order(pref: Engine, avail: Seq<bool>)
    requires
        avail.len() == 4,
    ensures
        spec_order(pref).len() == 4,
        spec_order(pref)[0] == pref,
        forall|e: Engine| spec_order(pref).contains(e),
        forall|i: int, j: int| 0 <= i < j < 4 ==> spec_order(pref)[i] != spec_order(pref)[j],
        resolve_spec(pref, avail) matches Ok(e) ==> spec_order(pref).contains(e),
        avail[engine_index(pref)] ==> resolve_spec(pref, avail) == Ok::<Engine, EngineNotFoundError>(pref),
{
    let order = spec_order(pref);
    assert forall|e: Engine| order.contains(e) by {
        match e {
            Engine::Tectonic => assert(exists|k: int| 0 <= k < 4 && order[k] == e),
            Engine::Latexmk => assert(exists|k: int| 0 <= k < 4 && order[k] == e),
            Engine::Pdflatex => assert(exists|k: int| 0 <= k < 4 && order[k] == e),
            Engine::Lualatex => assert(exists|k: int| 0 <= k < 4 && order[k] == e),
        }
    }
    lemma_first_available_contains(order, avail);
}

/// Law: when none of the four candidate binaries is available, resolution
/// always fails, whatever the preference.
pub proof fn lemma_resolve_none_available(pref: Engine, avail: Seq<bool>)
    requires
        avail.len() == 4,
        forall|k: int| 0 <= k < 4 ==> !avail[k],
    ensures
        resolve_spec(pref, avail) == Err::<Engine, EngineNotFoundError>(EngineNotFoundError),
{
    lemma_first_available_none(spec_order(pref), avail);
}

proof fn lemma_first_available_none(order: Seq<Engine>, avail: Seq<bool>)
    requires
        avail.len() == 4,
        forall|k: int| 0 <= k < 4 ==> !avail[k],
    ensures
        first_available(order, avail) is None,
    decreases order.len(),
{
    if order.len() > 0 {
        assert(0 <= engine_index(order[0]) < 4);
        lemma_first_available_none(order.skip(1), avail);
    }
}

/// Executable counterpart of `engine_index`.
pub fn engine_slot(e: Engine) -> (r: usize)
    ensures
        r == engine_index(e),
{
    match e {
        Engine::Tectonic => 0,
        Engine::Latexmk => 1,
        Engine::Pdflatex => 2,
        Engine::Lualatex => 3,
    }
}

} // verus!
