//! Names of inline calls in a file that was written.
use vstd::prelude::*;
use crate::error::Error;
use crate::format::function::{EncodedFunctionView, EncodedInlineView};
use crate::model::{FunctionView, InlineView};
use crate::reader::answers;
use crate::reader::layout::ParsedLayout;
use crate::reader::owned;
use crate::writer::resolve;
use crate::writer::semantic;
use crate::writer::strings;

verus! {

/// Whether the nodes of a tree without a name refer to none when encoded.
pub open spec fn unnamed_refer_to_none(encoded: EncodedInlineView, node: InlineView) -> bool
    decreases node,
{
    &&& node.name.len() == 0 ==> encoded.name == 0
    &&& encoded.children.len() == node.children.len()
    &&& forall|i: int|
        0 <= i < node.children.len() ==> unnamed_refer_to_none(
            encoded.children[i],
            #[trigger] node.children[i],
        )
}

/// Whether that holds of the inline tree of a function.
pub open spec fn names_follow(encoded: EncodedFunctionView, function: FunctionView) -> bool {
    match function.inline {
        None => encoded.inline is None,
        Some(node) => encoded.inline is Some && unnamed_refer_to_none(encoded.inline->0, node),
    }
}

proof fn lemma_empty_name(before: Seq<Seq<u8>>, name: Seq<u8>)
    requires
        strings::is_table(before),
        name.len() == 0,
    ensures
        strings::interned_offset(before, name) == 0,
{
    assert(before[0] =~= name);
    assert(before.contains(before[0]));
    let at = before.index_of(name);
    assert(before[at] == name);
    assert(at == 0);
    assert(before.subrange(0, 0) =~= Seq::<Seq<u8>>::empty());
}

proof fn lemma_inline_named(node: InlineView, before: Seq<Seq<u8>>)
    requires
        strings::is_table(before),
    ensures
        unnamed_refer_to_none(semantic::inline_encoded(node, before).0, node),
    decreases node, 0int,
{
    strings::lemma_interned(before, node.name);
    if node.name.len() == 0 {
        lemma_empty_name(before, node.name);
    }
    lemma_inlines_named(
        node.children,
        0,
        strings::interned(before, node.name),
        Seq::empty(),
    );
}

proof fn lemma_inlines_named(
    nodes: Seq<InlineView>,
    i: int,
    before: Seq<Seq<u8>>,
    done: Seq<EncodedInlineView>,
)
    requires
        strings::is_table(before),
        0 <= i <= nodes.len(),
        done.len() == i,
    ensures
        ({
            let encoded = semantic::inline_list_encoded(nodes, i, before, done).0;
            &&& encoded.len() == nodes.len()
            &&& forall|k: int| 0 <= k < i ==> encoded[k] == done[k]
            &&& forall|k: int|
                i <= k < nodes.len() ==> unnamed_refer_to_none(encoded[k], #[trigger] nodes[k])
        }),
    decreases nodes, nodes.len() - i,
{
    if i < nodes.len() {
        let (one, grown) = semantic::inline_encoded(nodes[i], before);
        lemma_inline_named(nodes[i], before);
        resolve::lemma_inline_grows(nodes[i], before);
        lemma_inlines_named(nodes, i + 1, grown, done.push(one));
        let encoded = semantic::inline_list_encoded(nodes, i, before, done).0;
        assert(encoded[i] == done.push(one)[i]);
        assert forall|k: int| 0 <= k < i implies encoded[k] == done[k] by {
            assert(encoded[k] == done.push(one)[k]);
        }
    }
}

/// Encoding functions lets nodes without a name refer to none.
pub proof fn lemma_functions_named(
    functions: Seq<FunctionView>,
    i: int,
    before: Seq<Seq<u8>>,
    depth: nat,
    done: Seq<EncodedFunctionView>,
)
    requires
        strings::is_table(before),
        0 <= i <= functions.len(),
        done.len() == i,
    ensures
        semantic::functions_encoded(functions, i, before, depth, done) matches Ok((encoded, _))
            ==> {
            &&& encoded.len() == functions.len()
            &&& forall|k: int| 0 <= k < i ==> encoded[k] == done[k]
            &&& forall|k: int|
                i <= k < functions.len() ==> names_follow(encoded[k], #[trigger] functions[k])
        },
    decreases functions.len() - i,
{
    if i < functions.len() {
        if let Ok((one, grown)) = semantic::function_encoded(functions[i], before, depth) {
            strings::lemma_interned(before, functions[i].name);
            if let Some(node) = functions[i].inline {
                lemma_inline_named(node, strings::interned(before, functions[i].name));
            }
            resolve::lemma_function_grows(functions[i], before, depth);
            lemma_functions_named(functions, i + 1, grown, depth, done.push(one));
            if let Ok((encoded, _)) = semantic::functions_encoded(
                functions,
                i,
                before,
                depth,
                done,
            ) {
                assert(encoded[i] == done.push(one)[i]);
                assert forall|k: int| 0 <= k < i implies encoded[k] == done[k] by {
                    assert(encoded[k] == done.push(one)[k]);
                }
            }
        }
    }
}

/// A tree whose nodes without a name refer to none has no empty names.
pub proof fn lemma_names_shown(
    s: Seq<u8>,
    layout: ParsedLayout,
    encoded: EncodedInlineView,
    node: InlineView,
)
    requires
        unnamed_refer_to_none(encoded, node),
        owned::inline_of(s, layout, encoded) == Ok::<InlineView, Error>(node),
    ensures
        answers::names_shown(s, layout, encoded),
    decreases node,
{
    answers::lemma_inline_list(s, layout, encoded.children, 0, Seq::empty());
    assert forall|i: int| 0 <= i < encoded.children.len() implies answers::names_shown(
        s,
        layout,
        #[trigger] encoded.children[i],
    ) by {
        assert(owned::inline_of(s, layout, encoded.children[i]) == Ok::<InlineView, Error>(
            node.children[i],
        ));
        assert(unnamed_refer_to_none(encoded.children[i], node.children[i]));
        lemma_names_shown(s, layout, encoded.children[i], node.children[i]);
    }
}

} // verus!
