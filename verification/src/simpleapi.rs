//! A thin value-level surface over problems: the candidate label pairs a
//! caller may merge or connect, each paired with its labels' texts.

use vstd::prelude::*;
use crate::problem::{Problem, mapping_ids, text_of_spec};

verus! {

/// One simplification candidate: merge the first label into the second.
pub type Simpl = (usize, usize);

/// One arrow candidate: add a diagram edge from the first label to the
/// second.
pub type Addarrow = (usize, usize);

/// Candidate pairs with the texts of their two labels.
pub type RSimplifications = Vec<(Simpl, (String, String))>;

/// A problem together with its caller-presentable textual form.
pub type RProblem = (Problem, String);

/// Parse a problem from the active and the passive constraint's texts.
pub fn new_problem(left: &str, right: &str) -> (r: Result<RProblem, &'static str>)
    ensures
        r is Ok ==> crate::problem::mapping_wf(r->Ok_0.0.mapping_label_text@),
        r is Ok ==> r->Ok_0.0.diagram_indirect is None && r->Ok_0.0.diagram_direct is None,
{
    let mut text = String::from_str(left);
    text.append("\n\n");
    text.append(right);
    match Problem::from_string(text.as_str()) {
        Ok(p) => {
            let rendered = p.to_text();
            Ok((p, rendered))
        },
        Err(e) => Err(e),
    }
}

/// Apply one simplification: merge the pair's first label into its second,
/// and render the outcome.
pub fn simplify(p: &Problem, s: Simpl) -> (r: RProblem)
    ensures
        s.0 != s.1 ==> forall|q: int|
            0 <= q < r.0.mapping_label_text@.len() ==> (#[trigger] r.0.mapping_label_text@[q]).0
                != s.0,
{
    let np = p.relax_merge(s.0, s.1);
    let rendered = np.to_text();
    (np, rendered)
}

/// The text of a label in the problem's mapping, or a question mark.
fn lookup_text(p: &Problem, id: usize) -> (r: String)
    ensures
        r@ == text_of_spec(p.mapping_label_text@, id),
{
    proof {
        assert(p.mapping_label_text@.skip(0) =~= p.mapping_label_text@);
    }
    let mut i: usize = 0;
    while i < p.mapping_label_text.len()
        invariant
            i <= p.mapping_label_text@.len(),
            text_of_spec(p.mapping_label_text@, id) == text_of_spec(
                p.mapping_label_text@.skip(i as int),
                id,
            ),
        decreases p.mapping_label_text@.len() - i,
    {
        if p.mapping_label_text[i].0 == id {
            proof {
                assert(p.mapping_label_text@.skip(i as int)[0] == p.mapping_label_text@[
                    i as int
                ]);
            }
            return p.mapping_label_text[i].1.clone();
        }
        proof {
            crate::problem::lemma_text_of_spec_skip(p.mapping_label_text@, id, i as int);
        }
        i = i + 1;
    }
    proof {
        assert(p.mapping_label_text@.skip(p.mapping_label_text@.len() as int) =~= Seq::<
            (usize, String),
        >::empty());
        assert("?"@ =~= seq!['?']) by {
            reveal_strlit("?");
        }
    }
    String::from_str("?")
}

/// The ordered pairs of distinct labels that the computed diagram does not
/// connect: none of them is in the diagram, and every such pair of the
/// problem's labels occurs.
fn unreachable_pairs(p: &Problem) -> (r: Vec<(usize, usize)>)
    requires
        p.diagram_indirect is Some,
    ensures
        forall|k: int|
            0 <= k < r@.len() ==> !p.diagram_indirect->0@.contains(#[trigger] r@[k]) && r@[k].0
                != r@[k].1,
        forall|a: usize, b: usize|
            #![trigger mapping_ids(p.mapping_label_text@).contains(a), mapping_ids(p.mapping_label_text@).contains(b)]
            mapping_ids(p.mapping_label_text@).contains(a) && mapping_ids(
                p.mapping_label_text@,
            ).contains(b) && a != b && !p.diagram_indirect->0@.contains((a, b)) ==> r@.contains(
                (a, b),
            ),
{
    let labels = p.labels();
    proof {
        broadcast use vstd::seq_lib::group_to_multiset_ensures;

        let m = mapping_ids(p.mapping_label_text@);
        assert forall|a: usize| labels@.contains(a) <==> m.contains(a) by {
            assert(labels@.contains(a) <==> labels@.to_multiset().count(a) > 0);
            assert(m.contains(a) <==> m.to_multiset().count(a) > 0);
        }
    }
    let diagram = match p.diagram_indirect.as_ref() {
        Some(d) => d,
        None => {
            proof {
                assert(false);
            }
            unreached()
        },
    };
    proof {
        assert(diagram@ == p.diagram_indirect->0@);
    }
    let mut out: Vec<(usize, usize)> = Vec::new();
    let mut i: usize = 0;
    while i < labels.len()
        invariant
            p.diagram_indirect is Some,
            diagram@ == p.diagram_indirect->0@,
            i <= labels@.len(),
            forall|k: int|
                0 <= k < out@.len() ==> !p.diagram_indirect->0@.contains(#[trigger] out@[k])
                    && out@[k].0 != out@[k].1,
            forall|a: usize, b: usize|
                #![trigger labels@.take(i as int).contains(a), labels@.contains(b)]
                labels@.take(i as int).contains(a) && labels@.contains(b) && a != b && !p
                    .diagram_indirect->0@.contains((a, b)) ==> out@.contains((a, b)),
        decreases labels@.len() - i,
    {
        let mut j: usize = 0;
        while j < labels.len()
            invariant
                0 <= i < labels@.len(),
                j <= labels@.len(),
                p.diagram_indirect is Some,
                diagram@ == p.diagram_indirect->0@,
                forall|k: int|
                    0 <= k < out@.len() ==> !p.diagram_indirect->0@.contains(#[trigger] out@[k])
                        && out@[k].0 != out@[k].1,
                forall|a: usize, b: usize|
                    #![trigger labels@.take(i as int).contains(a), labels@.contains(b)]
                    labels@.take(i as int).contains(a) && labels@.contains(b) && a != b && !p
                        .diagram_indirect->0@.contains((a, b)) ==> out@.contains((a, b)),
                forall|b: usize|
                    #![trigger labels@.take(j as int).contains(b)]
                    labels@.take(j as int).contains(b) && labels@[i as int] != b && !p
                        .diagram_indirect->0@.contains((labels@[i as int], b)) ==> out@.contains(
                        (labels@[i as int], b),
                    ),
            decreases labels@.len() - j,
        {
            let a = labels[i];
            let b = labels[j];
            let ghost out0 = out@;
            if a != b {
                let mut found: bool = false;
                let mut k: usize = 0;
                while k < diagram.len()
                    invariant
                        p.diagram_indirect is Some,
                        diagram@ == p.diagram_indirect->0@,
                        !found ==> forall|w: int|
                            0 <= w < k ==> #[trigger] p.diagram_indirect->0@[w] != (a, b),
                        found ==> p.diagram_indirect->0@.contains((a, b)),
                        k <= diagram@.len(),
                    decreases diagram@.len() - k,
                {
                    if diagram[k].0 == a && diagram[k].1 == b {
                        found = true;
                        proof {
                            assert(diagram@[k as int] == (a, b));
                            assert(p.diagram_indirect->0@[k as int] == (a, b));
                        }
                    }
                    k = k + 1;
                }
                if !found {
                    proof {
                        assert(!p.diagram_indirect->0@.contains((a, b))) by {
                            if p.diagram_indirect->0@.contains((a, b)) {
                                let w = choose|w: int|
                                    0 <= w < p.diagram_indirect->0@.len() && p
                                        .diagram_indirect->0@[w] == (a, b);
                                assert(p.diagram_indirect->0@[w] != (a, b));
                            }
                        }
                    }
                    out.push((a, b));
                }
                proof {
                    if !p.diagram_indirect->0@.contains((a, b)) {
                        assert(!found);
                        assert(out@[out@.len() - 1] == (a, b));
                        assert(out@.contains((a, b)));
                    }
                }
            }
            proof {
                assert(forall|x: (usize, usize)| out0.contains(x) ==> out@.contains(x)) by {
                    assert forall|x: (usize, usize)| out0.contains(x) implies out@.contains(
                        x,
                    ) by {
                        let w = choose|w: int| 0 <= w < out0.len() && out0[w] == x;
                        assert(out@[w] == x);
                    }
                }
                assert(a != b && !p.diagram_indirect->0@.contains((a, b)) ==> out@.contains(
                    (a, b),
                ));
                assert forall|b2: usize|
                    labels@.take(j as int + 1).contains(b2) && labels@[i as int] != b2 && !p
                        .diagram_indirect->0@.contains((labels@[i as int], b2)) implies out@
                    .contains((labels@[i as int], b2)) by {
                    let w = choose|w: int|
                        0 <= w < j + 1 && #[trigger] labels@.take(j as int + 1)[w] == b2;
                    if w < j {
                        assert(labels@.take(j as int)[w] == b2);
                        assert(labels@.take(j as int).contains(b2));
                        assert(out0.contains((labels@[i as int], b2)));
                    } else {
                        assert(b2 == b);
                    }
                }
            }
            j = j + 1;
        }
        proof {
            assert(j == labels@.len());
            assert forall|a2: usize, b2: usize|
                labels@.take(i as int + 1).contains(a2) && labels@.contains(b2) && a2 != b2
                    && !p.diagram_indirect->0@.contains((a2, b2)) implies out@.contains(
                (a2, b2),
            ) by {
                let w = choose|w: int|
                    0 <= w < i + 1 && #[trigger] labels@.take(i as int + 1)[w] == a2;
                if w < i {
                    assert(labels@.take(i as int)[w] == a2);
                    assert(labels@.take(i as int).contains(a2));
                } else {
                    assert(a2 == labels@[i as int]);
                    assert(labels@.take(j as int) =~= labels@);
                    assert(labels@.take(j as int).contains(b2));
                }
            }
        }
        i = i + 1;
    }
    proof {
        assert(labels@.take(labels@.len() as int) =~= labels@);
    }
    out
}


/// Every candidate simplification of a problem with a computed diagram: the
/// diagram's pairs followed by the unconnected pairs, each with its labels'
/// texts.
pub fn possible_simplifications(p: &Problem) -> (r: RSimplifications)
    requires
        p.diagram_indirect is Some,
    ensures
        r@.len() >= p.diagram_indirect->0@.len(),
        forall|k: int|
            0 <= k < p.diagram_indirect->0@.len() ==> (#[trigger] r@[k]).0 == p
                .diagram_indirect->0@[k],
        forall|k: int|
            p.diagram_indirect->0@.len() <= k < r@.len() ==> !p.diagram_indirect->0@.contains(
                (#[trigger] r@[k]).0,
            ) && r@[k].0.0 != r@[k].0.1,
        forall|k: int|
            0 <= k < r@.len() ==> (#[trigger] r@[k]).1.0@ == text_of_spec(
                p.mapping_label_text@,
                r@[k].0.0,
            ) && r@[k].1.1@ == text_of_spec(p.mapping_label_text@, r@[k].0.1),
        forall|a: usize, b: usize|
            #![trigger mapping_ids(p.mapping_label_text@).contains(a), mapping_ids(p.mapping_label_text@).contains(b)]
            mapping_ids(p.mapping_label_text@).contains(a) && mapping_ids(
                p.mapping_label_text@,
            ).contains(b) && a != b && !p.diagram_indirect->0@.contains((a, b)) ==> exists|k: int|
                0 <= k < r@.len() && (#[trigger] r@[k]).0 == (a, b),
{
    let diagram = match p.diagram_indirect.as_ref() {
        Some(d) => d,
        None => {
            proof {
                assert(false);
            }
            unreached()
        },
    };
    proof {
        assert(diagram@ == p.diagram_indirect->0@);
    }
    let mut out: RSimplifications = Vec::new();
    let mut i: usize = 0;
    while i < diagram.len()
        invariant
            p.diagram_indirect is Some,
            diagram@ == p.diagram_indirect->0@,
            i <= diagram@.len(),
            out@.len() == i,
            forall|k: int|
                0 <= k < i ==> (#[trigger] out@[k]).0 == p.diagram_indirect->0@[k],
            forall|k: int|
                0 <= k < out@.len() ==> (#[trigger] out@[k]).1.0@ == text_of_spec(
                    p.mapping_label_text@,
                    out@[k].0.0,
                ) && out@[k].1.1@ == text_of_spec(p.mapping_label_text@, out@[k].0.1),
        decreases diagram@.len() - i,
    {
        let pair = (diagram[i].0, diagram[i].1);
        let ta = lookup_text(p, pair.0);
        let tb = lookup_text(p, pair.1);
        out.push((pair, (ta, tb)));
        i = i + 1;
    }
    let unreach = unreachable_pairs(p);
    let mut j: usize = 0;
    while j < unreach.len()
        invariant
            p.diagram_indirect is Some,
            diagram@ == p.diagram_indirect->0@,
            j <= unreach@.len(),
            out@.len() == diagram@.len() + j,
            forall|k: int|
                0 <= k < j ==> (#[trigger] out@[diagram@.len() + k]).0 == unreach@[k],
            forall|k: int|
                0 <= k < diagram@.len() ==> (#[trigger] out@[k]).0 == p.diagram_indirect->0@[k],
            forall|k: int|
                diagram@.len() <= k < out@.len() ==> !p.diagram_indirect->0@.contains(
                    (#[trigger] out@[k]).0,
                ) && out@[k].0.0 != out@[k].0.1,
            forall|k: int|
                0 <= k < unreach@.len() ==> !p.diagram_indirect->0@.contains(
                    #[trigger] unreach@[k],
                ) && unreach@[k].0 != unreach@[k].1,
            forall|k: int|
                0 <= k < out@.len() ==> (#[trigger] out@[k]).1.0@ == text_of_spec(
                    p.mapping_label_text@,
                    out@[k].0.0,
                ) && out@[k].1.1@ == text_of_spec(p.mapping_label_text@, out@[k].0.1),
        decreases unreach@.len() - j,
    {
        let pair = (unreach[j].0, unreach[j].1);
        let ta = lookup_text(p, pair.0);
        let tb = lookup_text(p, pair.1);
        out.push((pair, (ta, tb)));
        j = j + 1;
    }
    proof {
        assert forall|a: usize, b: usize|
            mapping_ids(p.mapping_label_text@).contains(a) && mapping_ids(
                p.mapping_label_text@,
            ).contains(b) && a != b && !p.diagram_indirect->0@.contains((a, b)) implies exists|
            k: int,
        |
            0 <= k < out@.len() && (#[trigger] out@[k]).0 == (a, b) by {
            assert(unreach@.contains((a, b)));
            let w = choose|w: int| 0 <= w < unreach@.len() && unreach@[w] == (a, b);
            assert(out@[diagram@.len() + w].0 == (a, b));
        }
    }
    out
}

/// Every candidate arrow of a problem with a computed diagram: the pairs of
/// distinct labels the diagram does not connect, each with its labels'
/// texts.
pub fn possible_addarrow(p: &Problem) -> (r: RSimplifications)
    requires
        p.diagram_indirect is Some,
    ensures
        forall|k: int|
            0 <= k < r@.len() ==> !p.diagram_indirect->0@.contains((#[trigger] r@[k]).0)
                && r@[k].0.0 != r@[k].0.1,
        forall|k: int|
            0 <= k < r@.len() ==> (#[trigger] r@[k]).1.0@ == text_of_spec(
                p.mapping_label_text@,
                r@[k].0.0,
            ) && r@[k].1.1@ == text_of_spec(p.mapping_label_text@, r@[k].0.1),
        forall|a: usize, b: usize|
            #![trigger mapping_ids(p.mapping_label_text@).contains(a), mapping_ids(p.mapping_label_text@).contains(b)]
            mapping_ids(p.mapping_label_text@).contains(a) && mapping_ids(
                p.mapping_label_text@,
            ).contains(b) && a != b && !p.diagram_indirect->0@.contains((a, b)) ==> exists|k: int|
                0 <= k < r@.len() && (#[trigger] r@[k]).0 == (a, b),
{
    let unreach = unreachable_pairs(p);
    let mut out: RSimplifications = Vec::new();
    let mut j: usize = 0;
    while j < unreach.len()
        invariant
            j <= unreach@.len(),
            out@.len() == j,
            forall|k: int| 0 <= k < j ==> (#[trigger] out@[k]).0 == unreach@[k],
            forall|k: int|
                0 <= k < out@.len() ==> !p.diagram_indirect->0@.contains((#[trigger] out@[k]).0)
                    && out@[k].0.0 != out@[k].0.1,
            forall|k: int|
                0 <= k < out@.len() ==> (#[trigger] out@[k]).1.0@ == text_of_spec(
                    p.mapping_label_text@,
                    out@[k].0.0,
                ) && out@[k].1.1@ == text_of_spec(p.mapping_label_text@, out@[k].0.1),
            forall|k: int|
                0 <= k < unreach@.len() ==> !p.diagram_indirect->0@.contains(
                    #[trigger] unreach@[k],
                ) && unreach@[k].0 != unreach@[k].1,
        decreases unreach@.len() - j,
    {
        let pair = (unreach[j].0, unreach[j].1);
        let ta = lookup_text(p, pair.0);
        let tb = lookup_text(p, pair.1);
        out.push((pair, (ta, tb)));
        j = j + 1;
    }
    proof {
        assert forall|a: usize, b: usize|
            mapping_ids(p.mapping_label_text@).contains(a) && mapping_ids(
                p.mapping_label_text@,
            ).contains(b) && a != b && !p.diagram_indirect->0@.contains((a, b)) implies exists|
            k: int,
        |
            0 <= k < out@.len() && (#[trigger] out@[k]).0 == (a, b) by {
            assert(unreach@.contains((a, b)));
            let w = choose|w: int| 0 <= w < unreach@.len() && unreach@[w] == (a, b);
            assert(out@[w].0 == (a, b));
        }
    }
    out
}

} // verus!
