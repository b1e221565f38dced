//! Hints: named text-transformation rules, their application semantics, and
//! paths of hint names applied in sequence.

use vstd::prelude::*;
use vstd::string::*;
use crate::text::{str_eq, replace_all, replace_all_spec, contains_sub, lemma_replace_all_absent};

verus! {

/// A text-transformation operation: remove every occurrence of `target`
/// from the text, or replace every occurrence of `target` by `replacement`.
/// Any other kind never applies.
pub struct HintOperation {
    pub op_type: String,
    pub target: String,
    pub replacement: Option<String>,
}

/// A named transformation rule. `reading` and `description` are opaque
/// display labels the engine never interprets.
pub struct Hint {
    pub name: String,
    pub reading: String,
    pub operation: HintOperation,
    pub description: String,
}

/// View of an optional string.
pub open spec fn opt_view(o: Option<String>) -> Option<Seq<char>> {
    match o {
        Some(s) => Some(s@),
        None => None,
    }
}

/// Result of applying an operation to `text`: the rewritten text when the
/// operation applies and actually changes it, `None` otherwise.
pub open spec fn apply_op(
    text: Seq<char>,
    op_type: Seq<char>,
    target: Seq<char>,
    replacement: Option<Seq<char>>,
) -> Option<Seq<char>> {
    if op_type == "remove"@ {
        let new_text = replace_all_spec(text, target, Seq::empty());
        if new_text != text {
            Some(new_text)
        } else {
            None
        }
    } else if op_type == "replace"@ {
        match replacement {
            Some(rep) => {
                let new_text = replace_all_spec(text, target, rep);
                if new_text != text {
                    Some(new_text)
                } else {
                    None
                }
            },
            None => None,
        }
    } else {
        None
    }
}

/// Result of applying `hint` to `text`.
pub open spec fn apply_hint_spec(text: Seq<char>, hint: Hint) -> Option<Seq<char>> {
    apply_op(
        text,
        hint.operation.op_type@,
        hint.operation.target@,
        opt_view(hint.operation.replacement),
    )
}

/// A hint whose target does not occur in the text never applies. (The empty
/// target occurs in every text, so this concerns non-empty targets.)
pub proof fn lemma_apply_absent(
    text: Seq<char>,
    op_type: Seq<char>,
    target: Seq<char>,
    replacement: Option<Seq<char>>,
)
    requires
        !contains_sub(text, target),
    ensures
        apply_op(text, op_type, target, replacement) is None,
{
    if op_type == "remove"@ {
        lemma_replace_all_absent(text, target, Seq::empty());
    } else if op_type == "replace"@ {
        match replacement {
            Some(rep) => lemma_replace_all_absent(text, target, rep),
            None => {},
        }
    }
}

/// Apply `hint` to `text` directly, consulting no cache. Used both by the
/// engine's memoized applicator and, on its own, for path reconstruction,
/// which must not touch the engine's caches.
pub fn apply_hint_uncached(text: &str, hint: &Hint) -> (r: Option<String>)
    ensures
        opt_view(r) == apply_hint_spec(text@, *hint),
{
    if str_eq(hint.operation.op_type.as_str(), "remove") {
        let new_text = replace_all(text, hint.operation.target.as_str(), "");
        proof {
            reveal_strlit("");
            assert(""@ =~= Seq::<char>::empty());
        }
        if !str_eq(new_text.as_str(), text) {
            Some(new_text)
        } else {
            None
        }
    } else if str_eq(hint.operation.op_type.as_str(), "replace") {
        match &hint.operation.replacement {
            Some(rep) => {
                let new_text = replace_all(text, hint.operation.target.as_str(), rep.as_str());
                if !str_eq(new_text.as_str(), text) {
                    Some(new_text)
                } else {
                    None
                }
            },
            None => None,
        }
    } else {
        None
    }
}

/// An exact copy of a hint.
pub fn clone_hint(h: &Hint) -> (r: Hint)
    ensures
        r == *h,
{
    Hint {
        name: h.name.clone(),
        reading: h.reading.clone(),
        operation: HintOperation {
            op_type: h.operation.op_type.clone(),
            target: h.operation.target.clone(),
            replacement: match &h.operation.replacement {
                Some(s) => Some(s.clone()),
                None => None,
            },
        },
        description: h.description.clone(),
    }
}

/// The first hint with the given name, searching from position `k`.
pub open spec fn find_hint_from(hints: Seq<Hint>, name: Seq<char>, k: int) -> Option<Hint>
    decreases hints.len() - k,
{
    if k < 0 || k >= hints.len() {
        None
    } else if hints[k].name@ == name {
        Some(hints[k])
    } else {
        find_hint_from(hints, name, k + 1)
    }
}

/// The first hint with the given name.
pub open spec fn find_hint(hints: Seq<Hint>, name: Seq<char>) -> Option<Hint> {
    find_hint_from(hints, name, 0)
}

/// Look a hint up by name.
pub fn find_hint_by_name<'a>(hints: &'a Vec<Hint>, name: &str) -> (r: Option<&'a Hint>)
    ensures
        match r {
            Some(h) => find_hint(hints@, name@) == Some(*h),
            None => find_hint(hints@, name@) is None,
        },
{
    let mut k: usize = 0;
    while k < hints.len()
        invariant
            0 <= k <= hints@.len(),
            find_hint(hints@, name@) == find_hint_from(hints@, name@, k as int),
        decreases hints@.len() - k,
    {
        if str_eq(hints[k].name.as_str(), name) {
            return Some(&hints[k]);
        }
        k += 1;
    }
    None
}

/// Hint names are pairwise distinct.
pub open spec fn names_unique(hints: Seq<Hint>) -> bool {
    forall|i: int, j: int|
        0 <= i < j < hints.len() ==> hints[i].name@ != hints[j].name@
}

/// Whether the hint catalog is structurally valid: names are unique.
pub fn check_names_unique(hints: &Vec<Hint>) -> (r: bool)
    ensures
        r == names_unique(hints@),
{
    let n = hints.len();
    let mut i: usize = 0;
    while i < n
        invariant
            n == hints@.len(),
            0 <= i <= n,
            forall|x: int, y: int| 0 <= x < y < i ==> hints@[x].name@ != hints@[y].name@,
        decreases n - i,
    {
        let mut j: usize = 0;
        while j < i
            invariant
                n == hints@.len(),
                0 <= j <= i < n,
                forall|y: int| 0 <= y < j ==> hints@[y].name@ != hints@[i as int].name@,
            decreases i - j,
        {
            if str_eq(hints[j].name.as_str(), hints[i].name.as_str()) {
                return false;
            }
            j += 1;
        }
        i += 1;
    }
    true
}

/// View of a path: the sequence of hint names as character sequences.
pub open spec fn path_of(p: Seq<String>) -> Seq<Seq<char>> {
    Seq::new(p.len(), |i: int| p[i]@)
}

/// The text reached by applying the named hints in order from `start`:
/// `None` if some name is unknown or some hint fails to apply.
pub open spec fn path_result(hints: Seq<Hint>, start: Seq<char>, path: Seq<Seq<char>>) -> Option<
    Seq<char>,
>
    decreases path.len(),
{
    if path.len() == 0 {
        Some(start)
    } else {
        match find_hint(hints, path[0]) {
            None => None,
            Some(h) => match apply_hint_spec(start, h) {
                None => None,
                Some(t) => path_result(hints, t, path.skip(1)),
            },
        }
    }
}


/// Result of applying the hint with the given name, `None` when the name is
/// unknown or the hint does not apply.
pub open spec fn apply_by_name(hints: Seq<Hint>, text: Seq<char>, name: Seq<char>) -> Option<
    Seq<char>,
> {
    match find_hint(hints, name) {
        Some(h) => apply_hint_spec(text, h),
        None => None,
    }
}

proof fn lemma_find_hint_from_reaches(hints: Seq<Hint>, name: Seq<char>, j: int, k: int)
    requires
        0 <= j <= k < hints.len(),
        hints[k].name@ == name,
        forall|i: int| j <= i < k ==> hints[i].name@ != name,
    ensures
        find_hint_from(hints, name, j) == Some(hints[k]),
    decreases k - j,
{
    if j < k {
        lemma_find_hint_from_reaches(hints, name, j + 1, k);
    }
}

/// With unique names, looking a catalog hint up by its own name finds it.
pub proof fn lemma_find_hint_unique(hints: Seq<Hint>, k: int)
    requires
        names_unique(hints),
        0 <= k < hints.len(),
    ensures
        find_hint(hints, hints[k].name@) == Some(hints[k]),
{
    assert forall|i: int| 0 <= i < k implies hints[i].name@ != hints[k].name@ by {
        assert(hints[i].name@ != hints[k].name@);
    }
    lemma_find_hint_from_reaches(hints, hints[k].name@, 0, k);
}

/// Appending one more hint name to a path composes: the result is the
/// application of that hint to the path's result.
pub proof fn lemma_path_result_snoc(
    hints: Seq<Hint>,
    start: Seq<char>,
    path: Seq<Seq<char>>,
    name: Seq<char>,
)
    ensures
        path_result(hints, start, path.push(name)) == match path_result(hints, start, path) {
            None => None,
            Some(t) => apply_by_name(hints, t, name),
        },
    decreases path.len(),
{
    let p2 = path.push(name);
    if path.len() == 0 {
        assert(p2.len() == 1);
        assert(p2[0] == name);
        assert(p2.skip(1) =~= Seq::<Seq<char>>::empty());
        match find_hint(hints, name) {
            None => {
                assert(path_result(hints, start, p2) is None);
            },
            Some(h) => {
                match apply_hint_spec(start, h) {
                    None => {
                        assert(path_result(hints, start, p2) is None);
                    },
                    Some(t) => {
                        assert(path_result(hints, t, p2.skip(1)) == Some(t));
                        assert(path_result(hints, start, p2) == Some(t));
                    },
                }
            },
        }
    } else {
        assert(p2[0] == path[0]);
        assert(p2.skip(1) =~= path.skip(1).push(name));
        match find_hint(hints, path[0]) {
            None => {},
            Some(h) => {
                match apply_hint_spec(start, h) {
                    None => {},
                    Some(t) => {
                        lemma_path_result_snoc(hints, t, path.skip(1), name);
                    },
                }
            },
        }
    }
}

/// An exact copy of a path of hint names.
pub fn clone_path(p: &Vec<String>) -> (r: Vec<String>)
    ensures
        r@ == p@,
{
    let mut r: Vec<String> = Vec::new();
    let mut k: usize = 0;
    while k < p.len()
        invariant
            0 <= k <= p@.len(),
            r@ == p@.subrange(0, k as int),
        decreases p@.len() - k,
    {
        r.push(p[k].clone());
        proof {
            assert(r@ =~= p@.subrange(0, k + 1));
        }
        k += 1;
    }
    proof {
        assert(p@.subrange(0, p@.len() as int) =~= p@);
    }
    r
}

} // verus!
