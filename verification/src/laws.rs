//! Crate-level laws: attribute resolution is idempotent on unique keys,
//! parsed trees are well formed, and the tree builder inverts the
//! serializer on well-formed trees.

use crate::builder::{
    append_child, build_spec, dedup_attrs_spec, elem_of_tag, lemma_done_absorbs, lemma_run_append,
    run, step, upsert_attr, BState,
};
use crate::element::{unique_keys, wf_elem, ElemV};
use crate::error::ErrV;
use crate::events::EventV;
use crate::node::{wf_node, NodeV};
use crate::writer::{emit_elem, emit_node, emit_nodes, tag_of_elem};
use vstd::prelude::*;

verus! {

/// Whether `k` occurs among the keys of `s`.
pub open spec fn has_key(s: Seq<(Seq<char>, Seq<char>)>, k: Seq<char>) -> bool {
    exists|m: int| 0 <= m < s.len() && (#[trigger] s[m]).0 == k
}

/// An upsert keeps keys unique, and introduces no key but `k`.
proof fn lemma_upsert_keys(acc: Seq<(Seq<char>, Seq<char>)>, k: Seq<char>, v: Seq<char>)
    requires
        unique_keys(acc),
    ensures
        unique_keys(upsert_attr(acc, k, v)),
        forall|l: int|
            0 <= l < upsert_attr(acc, k, v).len() ==> ((#[trigger] upsert_attr(acc, k, v)[l]).0
                == k || has_key(acc, upsert_attr(acc, k, v)[l].0)),
    decreases acc.len(),
{
    let res = upsert_attr(acc, k, v);
    if acc.len() == 0 {
        assert(res =~= seq![(k, v)]);
    } else if acc[0].0 == k {
        assert(res =~= seq![(k, v)] + acc.subrange(1, acc.len() as int));
        assert forall|i: int, j: int| 0 <= i < j < res.len() implies (#[trigger] res[i]).0 != (
        #[trigger] res[j]).0 by {
            if i == 0 {
                assert(res[j] == acc[j]);
                assert(acc[0].0 != acc[j].0);
            } else {
                assert(res[i] == acc[i] && res[j] == acc[j]);
            }
        }
        assert forall|l: int| 0 <= l < res.len() implies ((#[trigger] res[l]).0 == k || has_key(
            acc,
            res[l].0,
        )) by {
            if l > 0 {
                assert(res[l] == acc[l]);
            }
        }
    } else {
        let sub = acc.subrange(1, acc.len() as int);
        assert(forall|i: int, j: int|
            0 <= i < j < sub.len() ==> (#[trigger] sub[i]).0 != (#[trigger] sub[j]).0) by {
            assert(forall|i: int| 0 <= i < sub.len() ==> sub[i] == acc[i + 1]);
        }
        lemma_upsert_keys(sub, k, v);
        let inner = upsert_attr(sub, k, v);
        assert(res =~= seq![acc[0]] + inner);
        assert forall|i: int, j: int| 0 <= i < j < res.len() implies (#[trigger] res[i]).0 != (
        #[trigger] res[j]).0 by {
            if i == 0 {
                assert(res[j] == inner[j - 1]);
                if inner[j - 1].0 == k {
                } else {
                    let m = choose|m: int| 0 <= m < sub.len() && (#[trigger] sub[m]).0 == inner[j - 1].0;
                    assert(sub[m] == acc[m + 1]);
                }
            } else {
                assert(res[i] == inner[i - 1] && res[j] == inner[j - 1]);
            }
        }
        assert forall|l: int| 0 <= l < res.len() implies ((#[trigger] res[l]).0 == k || has_key(
            acc,
            res[l].0,
        )) by {
            if l == 0 {
                assert(acc[0].0 == res[l].0);
            } else {
                assert(res[l] == inner[l - 1]);
                if inner[l - 1].0 != k {
                    let m = choose|m: int| 0 <= m < sub.len() && (#[trigger] sub[m]).0 == inner[l - 1].0;
                    assert(sub[m] == acc[m + 1]);
                }
            }
        }
    }
}

/// Resolving duplicates always yields unique keys.
pub proof fn lemma_dedup_unique(attrs: Seq<(Seq<char>, Seq<char>)>)
    ensures
        unique_keys(dedup_attrs_spec(attrs)),
    decreases attrs.len(),
{
    if attrs.len() == 0 {
    } else {
        lemma_dedup_unique(attrs.drop_last());
        lemma_upsert_keys(dedup_attrs_spec(attrs.drop_last()), attrs.last().0, attrs.last().1);
    }
}

/// When `k` does not occur, an upsert appends the pair.
proof fn lemma_upsert_absent(s: Seq<(Seq<char>, Seq<char>)>, k: Seq<char>, v: Seq<char>)
    requires
        !has_key(s, k),
    ensures
        upsert_attr(s, k, v) == s.push((k, v)),
    decreases s.len(),
{
    if s.len() == 0 {
        assert(upsert_attr(s, k, v) =~= s.push((k, v)));
    } else {
        let sub = s.subrange(1, s.len() as int);
        assert(s[0].0 != k);
        assert(!has_key(sub, k)) by {
            assert(forall|m: int| 0 <= m < sub.len() ==> #[trigger] sub[m] == s[m + 1]);
        }
        lemma_upsert_absent(sub, k, v);
        assert(upsert_attr(s, k, v) == seq![s[0]] + sub.push((k, v)));
        assert(seq![s[0]] + sub.push((k, v)) =~= s.push((k, v)));
    }
}

/// On a list whose keys are already unique, resolving duplicates changes
/// nothing.
pub proof fn lemma_dedup_identity(attrs: Seq<(Seq<char>, Seq<char>)>)
    requires
        unique_keys(attrs),
    ensures
        dedup_attrs_spec(attrs) == attrs,
    decreases attrs.len(),
{
    if attrs.len() == 0 {
        assert(dedup_attrs_spec(attrs) =~= attrs);
    } else {
        let front = attrs.drop_last();
        assert(forall|i: int, j: int|
            0 <= i < j < front.len() ==> (#[trigger] front[i]).0 != (#[trigger] front[j]).0) by {
            assert(forall|i: int| 0 <= i < front.len() ==> front[i] == attrs[i]);
        }
        lemma_dedup_identity(front);
        assert(!has_key(front, attrs.last().0)) by {
            assert(forall|m: int| 0 <= m < front.len() ==> #[trigger] front[m] == attrs[m]);
            assert(attrs.last() == attrs[attrs.len() - 1]);
        }
        lemma_upsert_absent(front, attrs.last().0, attrs.last().1);
        assert(front.push((attrs.last().0, attrs.last().1)) =~= attrs);
    }
}

// ------------------------------------------------------------------
// Well-formedness of everything the builder produces.
// ------------------------------------------------------------------

/// Every element a builder state holds is well formed.
pub open spec fn st_wf(st: BState) -> bool {
    match st {
        BState::Seeking => true,
        BState::Open(stack) => forall|i: int| 0 <= i < stack.len() ==> wf_elem(
            #[trigger] stack[i],
        ),
        BState::Done(e) => wf_elem(e),
        BState::Failed(_) => true,
    }
}

/// The element a tag constructs is well formed.
proof fn lemma_elem_of_tag_wf(t: crate::events::TagV)
    ensures
        wf_elem(elem_of_tag(t)),
{
    lemma_dedup_unique(t.attrs);
}

/// Appending a well-formed child keeps a well-formed stack well formed.
proof fn lemma_append_child_wf(stack: Seq<ElemV>, n: NodeV)
    requires
        stack.len() > 0,
        forall|i: int| 0 <= i < stack.len() ==> wf_elem(#[trigger] stack[i]),
        wf_node(n),
    ensures
        forall|i: int|
            0 <= i < append_child(stack, n).len() ==> wf_elem(#[trigger] append_child(stack, n)[i]),
{
    let res = append_child(stack, n);
    let last = stack.len() - 1;
    assert forall|i: int| 0 <= i < res.len() implies wf_elem(#[trigger] res[i]) by {
        if i == last {
            let top = stack[last];
            let top2 = res[last];
            assert(wf_elem(top));
            assert forall|j: int| 0 <= j < top2.children.len() implies wf_node(
                #[trigger] top2.children[j],
            ) by {
                if j < top.children.len() {
                    assert(top2.children[j] == top.children[j]);
                } else {
                    assert(top2.children[j] == n);
                }
            }
        } else {
            assert(res[i] == stack[i]);
        }
    }
}

/// One step of the builder preserves well-formedness.
proof fn lemma_step_wf(st: BState, ev: EventV)
    requires
        st_wf(st),
    ensures
        st_wf(step(st, ev)),
{
    match st {
        BState::Seeking => match ev {
            EventV::Start(t) => lemma_elem_of_tag_wf(t),
            EventV::Empty(t) => lemma_elem_of_tag_wf(t),
            _ => (),
        },
        BState::Open(stack) => {
            if stack.len() > 0 {
                match ev {
                    EventV::Start(t) => lemma_elem_of_tag_wf(t),
                    EventV::Empty(t) => {
                        lemma_elem_of_tag_wf(t);
                        lemma_append_child_wf(stack, NodeV::Element(elem_of_tag(t)));
                    },
                    EventV::End(name) => {
                        let top = stack.last();
                        let rest = stack.drop_last();
                        if rest.len() == 0 {
                        } else if top.name != name {
                        } else {
                            assert(forall|i: int|
                                0 <= i < rest.len() ==> #[trigger] rest[i] == stack[i]);
                            lemma_append_child_wf(rest, NodeV::Element(top));
                        }
                    },
                    EventV::Text(s) => {
                        if s.len() > 0 {
                            lemma_append_child_wf(stack, NodeV::Text(s));
                        }
                    },
                    EventV::Ignorable => (),
                }
            }
        },
        BState::Done(_) => (),
        BState::Failed(_) => (),
    }
}

/// A whole run preserves well-formedness.
proof fn lemma_run_wf(st: BState, evs: Seq<EventV>)
    requires
        st_wf(st),
    ensures
        st_wf(run(st, evs)),
    decreases evs.len(),
{
    if evs.len() > 0 {
        lemma_step_wf(st, evs[0]);
        lemma_run_wf(step(st, evs[0]), evs.subrange(1, evs.len() as int));
    }
}

/// Every tree the builder completes is well formed: its attribute keys
/// are unique throughout, and no text node in it is empty.
pub proof fn lemma_build_wf(evs: Seq<EventV>, lex_err: Option<Seq<char>>)
    ensures
        build_spec(evs, lex_err) matches Ok(e) ==> wf_elem(e),
{
    lemma_run_wf(BState::Seeking, evs);
}

// ------------------------------------------------------------------
// The tree builder inverts the serializer.
// ------------------------------------------------------------------

/// `stack` with `ns` appended, in order, to the children of its top.
pub open spec fn extend_top(stack: Seq<ElemV>, ns: Seq<NodeV>) -> Seq<ElemV>
    recommends
        stack.len() > 0,
{
    let last = stack.len() - 1;
    stack.update(
        last,
        ElemV {
            name: stack[last].name,
            attrs: stack[last].attrs,
            children: stack[last].children + ns,
        },
    )
}

/// Feeding the events of one well-formed node to an open builder appends
/// exactly that node to the top of the stack.
proof fn lemma_run_emit_node(stack: Seq<ElemV>, n: NodeV, rest: Seq<EventV>)
    requires
        stack.len() > 0,
        wf_node(n),
    ensures
        run(BState::Open(stack), emit_node(n) + rest) == run(
            BState::Open(append_child(stack, n)),
            rest,
        ),
    decreases n,
{
    match n {
        NodeV::Text(s) => {
            let evs = emit_node(n) + rest;
            assert(evs[0] == EventV::Text(s));
            assert(evs.subrange(1, evs.len() as int) =~= rest);
            assert(s.len() > 0);
            assert(step(BState::Open(stack), EventV::Text(s)) == BState::Open(
                append_child(stack, n),
            ));
        },
        NodeV::Element(el) => {
            assert(wf_elem(el));
            lemma_dedup_identity(el.attrs);
            if el.children.len() == 0 {
                let evs = emit_node(n) + rest;
                assert(evs[0] == EventV::Empty(tag_of_elem(el)));
                assert(evs.subrange(1, evs.len() as int) =~= rest);
                assert(tag_of_elem(el).attrs == el.attrs);
                assert(elem_of_tag(tag_of_elem(el)).attrs == el.attrs);
                assert(elem_of_tag(tag_of_elem(el)).name == el.name);
                assert(elem_of_tag(tag_of_elem(el)).children =~= el.children);
                assert(elem_of_tag(tag_of_elem(el)) =~= el);
                assert(step(BState::Open(stack), EventV::Empty(tag_of_elem(el)))
                    == BState::Open(append_child(stack, n)));
            } else {
                let tag = tag_of_elem(el);
                let el0 = elem_of_tag(tag);
                let cs = el.children;
                let evs = emit_node(n) + rest;
                assert(emit_node(n) == seq![EventV::Start(tag)] + emit_nodes(cs) + seq![
                    EventV::End(el.name),
                ]);
                assert(evs[0] == EventV::Start(tag));
                assert(evs.subrange(1, evs.len() as int) =~= emit_nodes(cs) + (seq![
                    EventV::End(el.name),
                ] + rest));
                assert(step(BState::Open(stack), EventV::Start(tag)) == BState::Open(
                    stack.push(el0),
                ));
                assert(forall|i: int| 0 <= i < cs.len() ==> wf_node(#[trigger] cs[i]));
                lemma_run_emit_nodes(stack.push(el0), cs, seq![EventV::End(el.name)] + rest);
                assert(extend_top(stack.push(el0), cs) =~= stack.push(el)) by {
                    assert(el0.children + cs =~= cs);
                    assert(ElemV {
                        name: el0.name,
                        attrs: el0.attrs,
                        children: el0.children + cs,
                    } =~= el);
                }
                let evs2 = seq![EventV::End(el.name)] + rest;
                assert(evs2[0] == EventV::End(el.name));
                assert(evs2.subrange(1, evs2.len() as int) =~= rest);
                assert(stack.push(el).last() == el);
                assert(stack.push(el).drop_last() =~= stack);
                assert(step(BState::Open(stack.push(el)), EventV::End(el.name)) == BState::Open(
                    append_child(stack, n),
                ));
            }
        },
    }
}

/// Feeding the events of a list of well-formed nodes appends exactly
/// those nodes, in order, to the top of the stack.
proof fn lemma_run_emit_nodes(stack: Seq<ElemV>, ns: Seq<NodeV>, rest: Seq<EventV>)
    requires
        stack.len() > 0,
        forall|i: int| 0 <= i < ns.len() ==> wf_node(#[trigger] ns[i]),
    ensures
        run(BState::Open(stack), emit_nodes(ns) + rest) == run(
            BState::Open(extend_top(stack, ns)),
            rest,
        ),
    decreases ns,
{
    if ns.len() == 0 {
        assert(emit_nodes(ns) + rest =~= rest);
        assert(extend_top(stack, ns) =~= stack) by {
            let last = stack.len() - 1;
            assert(stack[last].children + ns =~= stack[last].children);
            assert(ElemV {
                name: stack[last].name,
                attrs: stack[last].attrs,
                children: stack[last].children + ns,
            } =~= stack[last]);
        }
    } else {
        let sub = ns.subrange(1, ns.len() as int);
        assert(emit_nodes(ns) + rest =~= emit_node(ns[0]) + (emit_nodes(sub) + rest));
        lemma_run_emit_node(stack, ns[0], emit_nodes(sub) + rest);
        let stack1 = append_child(stack, ns[0]);
        assert(forall|i: int| 0 <= i < sub.len() ==> wf_node(#[trigger] sub[i])) by {
            assert(forall|i: int| 0 <= i < sub.len() ==> sub[i] == ns[i + 1]);
        }
        lemma_run_emit_nodes(stack1, sub, rest);
        assert(extend_top(stack1, sub) =~= extend_top(stack, ns)) by {
            let last = stack.len() - 1;
            assert(stack1[last].children =~= stack[last].children.push(ns[0]));
            assert(stack[last].children.push(ns[0]) + sub =~= stack[last].children + ns);
        }
    }
}

/// A seeking builder that meets the events of a well-formed tree
/// completes exactly that tree as its root.
proof fn lemma_run_emit_elem(e: ElemV, rest: Seq<EventV>)
    requires
        wf_elem(e),
    ensures
        run(BState::Seeking, emit_elem(e) + rest) == BState::Done(e),
{
    lemma_dedup_identity(e.attrs);
    if e.children.len() == 0 {
        let evs = emit_elem(e) + rest;
        assert(evs[0] == EventV::Empty(tag_of_elem(e)));
        assert(evs.subrange(1, evs.len() as int) =~= rest);
        assert(tag_of_elem(e).attrs == e.attrs);
        assert(elem_of_tag(tag_of_elem(e)).attrs == e.attrs);
        assert(elem_of_tag(tag_of_elem(e)).name == e.name);
        assert(elem_of_tag(tag_of_elem(e)).children =~= e.children);
        assert(elem_of_tag(tag_of_elem(e)) =~= e);
        assert(step(BState::Seeking, EventV::Empty(tag_of_elem(e))) == BState::Done(e));
        lemma_done_absorbs(e, rest);
    } else {
        let tag = tag_of_elem(e);
        let el0 = elem_of_tag(tag);
        let cs = e.children;
        let evs = emit_elem(e) + rest;
        assert(emit_elem(e) == seq![EventV::Start(tag)] + emit_nodes(cs) + seq![
            EventV::End(e.name),
        ]);
        assert(evs[0] == EventV::Start(tag));
        assert(evs.subrange(1, evs.len() as int) =~= emit_nodes(cs) + (seq![
            EventV::End(e.name),
        ] + rest));
        assert(step(BState::Seeking, EventV::Start(tag)) == BState::Open(seq![el0]));
        assert(forall|i: int| 0 <= i < cs.len() ==> wf_node(#[trigger] cs[i]));
        lemma_run_emit_nodes(seq![el0], cs, seq![EventV::End(e.name)] + rest);
        assert(extend_top(seq![el0], cs) =~= seq![e]) by {
            assert(el0.children + cs =~= cs);
            assert(ElemV { name: el0.name, attrs: el0.attrs, children: el0.children + cs }
                =~= e);
            assert(seq![el0].update(0, ElemV {
                name: el0.name,
                attrs: el0.attrs,
                children: el0.children + cs,
            }) =~= seq![e]);
        }
        let evs2 = seq![EventV::End(e.name)] + rest;
        assert(evs2[0] == EventV::End(e.name));
        assert(evs2.subrange(1, evs2.len() as int) =~= rest);
        assert(seq![e].last() == e);
        assert(seq![e].drop_last().len() == 0);
        assert(step(BState::Open(seq![e]), EventV::End(e.name)) == BState::Done(e));
        lemma_done_absorbs(e, rest);
    }
}

/// The tree builder inverts the serializer: building from the event
/// sequence a well-formed tree serializes to gives back exactly that
/// tree, whatever events follow and whether or not the tokenizer
/// stopped on an error afterwards.
pub proof fn lemma_build_inverts_emit(e: ElemV, rest: Seq<EventV>, lex_err: Option<Seq<char>>)
    requires
        wf_elem(e),
    ensures
        run(BState::Seeking, emit_elem(e) + rest) == BState::Done(e),
        build_spec(emit_elem(e) + rest, lex_err) == Ok::<ElemV, ErrV>(e),
        build_spec(emit_elem(e), lex_err) == Ok::<ElemV, ErrV>(e),
{
    lemma_run_emit_elem(e, Seq::<EventV>::empty());
    assert(emit_elem(e) + Seq::<EventV>::empty() =~= emit_elem(e));
    assert(run(BState::Seeking, emit_elem(e)) == BState::Done(e));
    lemma_run_append(BState::Seeking, emit_elem(e), rest);
    lemma_done_absorbs(e, rest);
}

/// Every tree that parsing yields is well formed, so serializing it and
/// building the serialized events again is the identity
/// (`lemma_build_inverts_emit`): the round trip loses nothing of a
/// parsed document but the markup the builder ignores and the lexical
/// spelling of references, which the tokenizer already resolves.
pub proof fn lemma_parse_wf(s: Seq<char>)
    ensures
        crate::element::parse_spec(s) matches Ok(e) ==> wf_elem(e),
{
    lemma_build_wf(crate::events::lex(s).0, crate::events::lex(s).1);
}

/// The text-level round trip, relative to the tokenizer: whenever the
/// tokenizer reads the serializer's output back as exactly the events
/// the serializer emitted, parsing the serialized text of a well-formed
/// tree yields that tree again. What the tokenizer makes of bytes is
/// outside this crate, so that reading-back is the one hypothesis left
/// open here; everything on this side of it is proved.
pub proof fn lemma_text_round_trip(e: ElemV)
    requires
        wf_elem(e),
        crate::events::lex(crate::writer::serialize_spec(e)) == (
            emit_elem(e),
            None::<Seq<char>>,
        ),
    ensures
        crate::element::parse_spec(crate::writer::serialize_spec(e)) == Ok::<ElemV, ErrV>(e),
{
    lemma_build_inverts_emit(e, Seq::<EventV>::empty(), None::<Seq<char>>);
}

/// A self-closing root short-circuits the builder: whatever events
/// follow it, and however the tokenizer later stopped, the result is the
/// childless element of that tag.
pub proof fn lemma_empty_root_short_circuit(
    t: crate::events::TagV,
    rest: Seq<EventV>,
    lex_err: Option<Seq<char>>,
)
    ensures
        build_spec(seq![EventV::Empty(t)] + rest, lex_err) == Ok::<ElemV, ErrV>(elem_of_tag(t)),
        elem_of_tag(t).children.len() == 0,
{
    let evs = seq![EventV::Empty(t)] + rest;
    assert(evs[0] == EventV::Empty(t));
    assert(evs.subrange(1, evs.len() as int) =~= rest);
    assert(step(BState::Seeking, EventV::Empty(t)) == BState::Done(elem_of_tag(t)));
    lemma_done_absorbs(elem_of_tag(t), rest);
}

} // verus!
