use crate::text::{trim, trimmed};
use crate::value::{pairs_view, Dyn, DynValue};
use vstd::prelude::*;
use vstd::string::StringExecFns;

verus! {

/// A value worth writing into a saved metadata block: anything but null, an empty list
/// or a blank string.
pub open spec fn carries_content(d: Dyn) -> bool {
    match d {
        Dyn::Null => false,
        Dyn::List(items) => items.len() > 0,
        Dyn::Str(s) => s.len() > 0 && trimmed(s).len() > 0,
        _ => true,
    }
}

/// A metadata block worth writing: some entry of it carries content. A value that is
/// not a mapping has no entries.
pub open spec fn block_worth_writing(block: Dyn) -> bool {
    block is Mapping && exists|i: int|
        0 <= i < block->Mapping_0.len() && carries_content((#[trigger] block->Mapping_0[i]).1)
}

/// Whether a metadata block is worth writing.
pub fn block_has_content(block: &DynValue) -> (r: bool)
    ensures
        r == block_worth_writing(block@),
{
    match block {
        DynValue::Mapping(entries) => {
            let ghost ev = pairs_view(entries@);
            assert(block@->Mapping_0 =~= ev);
            let mut i: usize = 0;
            while i < entries.len()
                invariant
                    i <= entries@.len(),
                    ev == pairs_view(entries@),
                    block@ is Mapping,
                    block@->Mapping_0 == ev,
                    forall|a: int| 0 <= a < i ==> !carries_content((#[trigger] ev[a]).1),
                decreases entries@.len() - i,
            {
                let found = match &entries[i].1 {
                    DynValue::Null => false,
                    DynValue::List(items) => items.len() > 0,
                    DynValue::Str(s) => !s.as_str().is_empty() && !trim(s.as_str()).as_str().is_empty(),
                    _ => true,
                };
                if found {
                    assert(carries_content(ev[i as int].1));
                    return true;
                }
                i = i + 1;
            }
            false
        },
        _ => false,
    }
}

/// The text of a document saved with a metadata block: the block's YAML text between
/// marker lines, a blank line, then the body.
pub fn frame_document(yaml: &str, body: &str) -> (r: String)
    ensures
        r@ == "---\n"@ + yaml@ + "---\n\n"@ + body@,
{
    let r = String::from_str("---\n");
    let r = r.concat(yaml);
    let r = r.concat("---\n\n");
    r.concat(body)
}

/// The text saved for a document: the block's YAML text framed above the body when the
/// block is worth writing, and the body alone otherwise.
pub fn document_text(block: &DynValue, yaml: &str, body: &str) -> (r: String)
    ensures
        r@ == if block_worth_writing(block@) {
            "---\n"@ + yaml@ + "---\n\n"@ + body@
        } else {
            body@
        },
{
    if block_has_content(block) {
        frame_document(yaml, body)
    } else {
        String::from_str(body)
    }
}

} // verus!
