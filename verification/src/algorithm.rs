//! Choosing the optical-flow algorithm by name.

use vstd::prelude::*;

verus! {

/// The optical-flow algorithms that frames can be interpolated with.
#[derive(Clone, Copy, Debug, PartialEq, Eq, Structural)]
pub enum FlowAlgKind {
    SimpleFlow,
    DenseRlof,
}

/// `c` with ASCII upper-case letters made lower-case.
pub open spec fn ascii_lower(c: char) -> char {
    if 'A' <= c && c <= 'Z' {
        ((c as u32) + 32) as char
    } else {
        c
    }
}

/// `s` equals the lower-case name `lower` when ASCII case is ignored.
pub open spec fn matches_lower(s: Seq<char>, lower: Seq<char>) -> bool {
    &&& s.len() == lower.len()
    &&& forall|i: int| 0 <= i < s.len() ==> #[trigger] ascii_lower(s[i]) == lower[i]
}

/// The names, in any case, that select the dense RLOF algorithm.
pub open spec fn names_dense_rlof(name: Seq<char>) -> bool {
    ||| matches_lower(name, "denserlof"@)
    ||| matches_lower(name, "dense_rlof"@)
    ||| matches_lower(name, "rlof"@)
}

/// Whether `name` equals the lower-case `lower`, ignoring ASCII case.
fn eq_ignore_ascii_case(name: &str, lower: &str) -> (res: bool)
    ensures
        res == matches_lower(name@, lower@),
{
    let n = name.unicode_len();
    if n != lower.unicode_len() {
        return false;
    }
    let mut i: usize = 0;
    while i < n
        invariant
            n == name@.len(),
            n == lower@.len(),
            i <= n,
            forall|j: int| 0 <= j < i ==> #[trigger] ascii_lower(name@[j]) == lower@[j],
        decreases n - i,
    {
        let c = name.get_char(i);
        let l = lower.get_char(i);
        let same: bool = if 'A' <= c && c <= 'Z' {
            (c as u32) + 32 == l as u32
        } else {
            c == l
        };
        if !same {
            assert(ascii_lower(name@[i as int]) != lower@[i as int]);
            return false;
        }
        i = i + 1;
    }
    true
}

impl FlowAlgKind {
    /// The algorithm a name selects: "denserlof", "dense_rlof" or "rlof", in
    /// any case, select dense RLOF; every other name selects SimpleFlow.
    pub fn from_name(name: &str) -> (kind: FlowAlgKind)
        ensures
            kind == (if names_dense_rlof(name@) {
                FlowAlgKind::DenseRlof
            } else {
                FlowAlgKind::SimpleFlow
            }),
    {
        if eq_ignore_ascii_case(name, "denserlof") || eq_ignore_ascii_case(name, "dense_rlof")
            || eq_ignore_ascii_case(name, "rlof") {
            FlowAlgKind::DenseRlof
        } else {
            FlowAlgKind::SimpleFlow
        }
    }

    /// The name the algorithm is reported under.
    pub fn display_name(&self) -> (name: &'static str)
        ensures
            name@ == (match self {
                FlowAlgKind::SimpleFlow => "SimpleFlow"@,
                FlowAlgKind::DenseRlof => "DenseRLOF"@,
            }),
    {
        match self {
            FlowAlgKind::SimpleFlow => "SimpleFlow",
            FlowAlgKind::DenseRlof => "DenseRLOF",
        }
    }
}

/// The name an algorithm is reported under selects that algorithm again.
pub proof fn lemma_display_name_selects(kind: FlowAlgKind)
    ensures
        (if names_dense_rlof(
            match kind {
                FlowAlgKind::SimpleFlow => "SimpleFlow"@,
                FlowAlgKind::DenseRlof => "DenseRLOF"@,
            },
        ) {
            FlowAlgKind::DenseRlof
        } else {
            FlowAlgKind::SimpleFlow
        }) == kind,
{
    reveal_strlit("SimpleFlow");
    reveal_strlit("DenseRLOF");
    reveal_strlit("denserlof");
    reveal_strlit("dense_rlof");
    reveal_strlit("rlof");
    match kind {
        FlowAlgKind::SimpleFlow => {
            let s = "SimpleFlow"@;
            assert(!matches_lower(s, "denserlof"@)) by {
                assert(ascii_lower(s[0]) != "denserlof"@[0]);
            }
            assert(!matches_lower(s, "dense_rlof"@));
            assert(!matches_lower(s, "rlof"@));
        },
        FlowAlgKind::DenseRlof => {
            let s = "DenseRLOF"@;
            assert(matches_lower(s, "denserlof"@)) by {
                assert forall|i: int| 0 <= i < s.len() implies #[trigger] ascii_lower(s[i])
                    == "denserlof"@[i] by {
                    assert(s[0] == 'D');
                    assert(s[5] == 'R');
                    assert(s[6] == 'L');
                    assert(s[7] == 'O');
                    assert(s[8] == 'F');
                }
            }
        },
    }
}

} // verus!
