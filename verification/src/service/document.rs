//! Importing text as a new document of the block store.

use vstd::prelude::*;
use crate::api::request::ImportTextReq;
use crate::api::response::ImportResult;
use crate::error::AppError;
use crate::model::{copy_block, same_block, Block, BlockStatus, BlockType, ROOT_ID};
use crate::parser::markdown::{
    blocks_wf, block_ok, doc_block_ok, empty_result_ok, known, law_parsed_positions_valid, single_property,
};
use crate::parser::types::{ParseOptions, ParseResult};
use crate::parser::{get_parser, is_markdown_name, unsupported_message, BlockParser};
use crate::position::valid_pos;
use crate::service::block::{
    document_error, document_parent, document_refused, duplicate_id_message, insert_position, insert_position_of,
    opt_id,
};
use crate::service::history::similar;
use crate::service::store::{index_of, lemma_index_of, row_ok, store_wf, BlockStore};
use crate::text::{from_utf8_lossy, push_str, str_eq, string_into_bytes, utf8_lossy};

verus! {

/// What a parse hands over for insertion: a document row, and blocks whose
/// positions are valid and whose parents are the document or earlier
/// blocks.
pub open spec fn parse_shape(p: ParseResult) -> bool {
    &&& doc_block_ok(p.root)
    &&& forall|k: int|
        #![trigger p.children@[k]]
        0 <= k < p.children@.len() ==> valid_pos(p.children@[k].position@) && (p.children@[k].parent_id@ == p.root.id@
            || exists|j: int| 0 <= j < k && p.children@[j].id@ == p.children@[k].parent_id@)
}

/// The identifiers of the parse are new to `s` and to each other.
pub open spec fn fresh_ids(s: Seq<Block>, p: ParseResult) -> bool {
    &&& index_of(s, p.root.id@) is None
    &&& forall|k: int|
        #![trigger p.children@[k]]
        0 <= k < p.children@.len() ==> index_of(s, p.children@[k].id@) is None && p.children@[k].id@ != p.root.id@
    &&& forall|i: int, j: int|
        0 <= i < j < p.children@.len() ==> (#[trigger] p.children@[i]).id@ != (#[trigger] p.children@[j]).id@
}

/// The title an import gives its document: the one asked for, else the
/// text of the parsed title.
pub open spec fn import_title(title: Option<String>, root: Block) -> Seq<char> {
    match title {
        Some(t) => t@,
        None => utf8_lossy(root.content@),
    }
}

/// `r` is the document row of an import of parse root `root` under
/// `parent` after `after` with title `title`, into store `s`.
pub open spec fn import_root(
    r: Block,
    root: Block,
    s: Seq<Block>,
    parent: Option<String>,
    after: Option<String>,
    title: Option<String>,
) -> bool {
    &&& r.id == root.id
    &&& r.document_id == root.id
    &&& r.parent_id@ == document_parent(parent)
    &&& r.position@ == insert_position(s, document_parent(parent), opt_id(after))->0
    &&& r.block_type == BlockType::Document
    &&& r.content@ == match title {
        Some(t) => vstd::utf8::encode_utf8(t@),
        None => root.content@,
    }
    &&& r.properties@.dom().len() == 1
    &&& exists|k: String| k@ == "title"@ && r.properties@.contains_key(k) && r.properties@[k]@ == import_title(title, root)
    &&& r.version == root.version
    &&& r.status == root.status
    &&& r.schema_version == root.schema_version
    &&& r.encrypted == root.encrypted
    &&& r.created == root.created
    &&& r.modified == root.modified
    &&& r.author == root.author
    &&& r.owner_id == root.owner_id
}

/// The placement of a new document: its parent and its position.
fn document_placement(store: &BlockStore, parent_id: &Option<String>, after_id: &Option<String>) -> (r: Result<
    (String, String),
    AppError,
>)
    requires
        store_wf(store@),
    ensures
        r is Ok <==> !document_refused(store@, *parent_id, *after_id),
        r matches Ok((p, pos)) ==> p@ == document_parent(*parent_id) && Some(pos@) == insert_position(
            store@,
            document_parent(*parent_id),
            opt_id(*after_id),
        ) && valid_pos(pos@) && (parent_id is Some ==> index_of(store@, p@) is Some),
        r matches Err(e) ==> document_error(store@, *parent_id, *after_id, e),
{
    proof {
        reveal_strlit("/");
        reveal_strlit("parent_id 必须指向文档类型的 Block");
    }
    let parent: String = match parent_id {
        Some(pid) => {
            let row = match store.find(pid.as_str()) {
                Some(pi) => {
                    if store.row_at(pi).status == BlockStatus::Deleted {
                        None
                    } else {
                        Some(pi)
                    }
                },
                None => None,
            };
            match row {
                Some(pi) => {
                    if !matches!(store.row_at(pi).block_type, BlockType::Document) {
                        return Err(AppError::BadRequest("parent_id 必须指向文档类型的 Block".to_owned()));
                    }
                },
                None => {
                    let mut msg = "父文档 ".to_owned();
                    push_str(&mut msg, pid.as_str());
                    push_str(&mut msg, " 不存在");
                    return Err(AppError::BadRequest(msg));
                },
            }
            pid.clone()
        },
        None => ROOT_ID.to_owned(),
    };
    let after = match after_id {
        Some(a) => Some(a.as_str()),
        None => None,
    };
    match insert_position_of(store, parent.as_str(), after) {
        Ok(p) => Ok((parent, p)),
        Err(e) => Err(e),
    }
}

/// Whether the identifiers of the parse are new to the store and to each
/// other.
fn ids_are_fresh(store: &BlockStore, p: &ParseResult) -> (r: bool)
    ensures
        r == fresh_ids(store@, *p),
{
    if store.find(p.root.id.as_str()).is_some() {
        return false;
    }
    let n = p.children.len();
    let mut k: usize = 0;
    while k < n
        invariant
            n == p.children@.len(),
            k <= n,
            index_of(store@, p.root.id@) is None,
            forall|t: int|
                #![trigger p.children@[t]]
                0 <= t < k ==> index_of(store@, p.children@[t].id@) is None && p.children@[t].id@ != p.root.id@,
            forall|i: int, j: int| 0 <= i < j < k ==> (#[trigger] p.children@[i]).id@ != (#[trigger] p.children@[j]).id@,
        decreases n - k,
    {
        let id = p.children[k].id.as_str();
        if store.find(id).is_some() || str_eq(id, p.root.id.as_str()) {
            return false;
        }
        let mut j: usize = 0;
        while j < k
            invariant
                n == p.children@.len(),
                j <= k < n,
                id@ == p.children@[k as int].id@,
                forall|t: int| 0 <= t < j ==> (#[trigger] p.children@[t]).id@ != id@,
            decreases k - j,
        {
            if str_eq(p.children[j].id.as_str(), id) {
                return false;
            }
            j += 1;
        }
        k += 1;
    }
    true
}

/// The `k`-th parsed block can go into a store that holds `s0`, the
/// document row and the blocks before it.
#[verifier::rlimit(30)]
proof fn lemma_child_insertable(s0: Seq<Block>, s: Seq<Block>, parsed: ParseResult, k: int)
    requires
        fresh_ids(s0, parsed),
        parse_shape(parsed),
        0 <= k < parsed.children@.len(),
        s.len() == s0.len() + 1 + k,
        s.take(s0.len() as int) == s0,
        s[s0.len() as int].id@ == parsed.root.id@,
        forall|t: int| 0 <= t < k ==> same_block(#[trigger] s[s0.len() + 1 + t], parsed.children@[t]),
    ensures
        index_of(s, parsed.children@[k].id@) is None,
        row_ok(parsed.children@[k]),
{
    let m = s0.len() as int;
    let b = parsed.children@[k];
    lemma_index_of(s, b.id@);
    lemma_index_of(s0, b.id@);
    assert(index_of(s0, b.id@) is None && b.id@ != parsed.root.id@);
    assert forall|t: int| 0 <= t < s.len() implies (#[trigger] s[t]).id@ != b.id@ by {
        if t < m {
            assert(s[t] == s.take(m)[t]);
        } else if t > m {
            let u = t - m - 1;
            assert(same_block(s[m + 1 + u], parsed.children@[u]));
            assert(parsed.children@[u].id@ != parsed.children@[k].id@);
        }
    }
    if b.parent_id@ == b.id@ && b.parent_id@ != parsed.root.id@ {
        assert(exists|j: int| 0 <= j < k && parsed.children@[j].id@ == parsed.children@[k].parent_id@);
        let j = choose|j: int| 0 <= j < k && parsed.children@[j].id@ == parsed.children@[k].parent_id@;
        assert(parsed.children@[j].id@ != parsed.children@[k].id@);
    }
}

/// Inserts a parsed document under `parent_id` (the global root when
/// `None`), after `after_id` or last, titled `title` or after its parsed
/// title: the document row, then every parsed block as parsed.
#[verifier::rlimit(40)]
pub fn import_parsed(
    store: &mut BlockStore,
    parent_id: Option<String>,
    after_id: Option<String>,
    title: Option<String>,
    parsed: ParseResult,
) -> (r: Result<ImportResult, AppError>)
    requires
        store_wf(old(store)@),
        parse_shape(parsed),
    ensures
        store_wf(final(store)@),
        r is Ok <==> !document_refused(old(store)@, parent_id, after_id) && fresh_ids(old(store)@, parsed),
        r matches Ok(res) ==> {
            let n = old(store)@.len() as int;
            &&& final(store)@.len() == n + 1 + parsed.children@.len()
            &&& final(store)@.take(n) == old(store)@
            &&& import_root(final(store)@[n], parsed.root, old(store)@, parent_id, after_id, title)
            &&& similar(final(store)@.skip(n + 1), parsed.children@)
            &&& same_block(res.root, final(store)@[n])
            &&& res.blocks_imported == 1 + parsed.children@.len()
            &&& res.warnings@ == parsed.warnings@
        },
        r matches Err(e) ==> final(store)@ == old(store)@ && (if document_refused(old(store)@, parent_id, after_id) {
            document_error(old(store)@, parent_id, after_id, e)
        } else {
            e matches AppError::Internal(m) && m@ == duplicate_id_message()
        }),
{
    let ghost s0 = store@;
    proof {
        reveal_strlit("插入 Block 失败: UNIQUE constraint failed: blocks.id");
        reveal_strlit("title");
    }
    let (parent, position) = match document_placement(store, &parent_id, &after_id) {
        Ok(t) => t,
        Err(e) => {
            return Err(e);
        },
    };
    if !ids_are_fresh(store, &parsed) {
        return Err(AppError::Internal("插入 Block 失败: UNIQUE constraint failed: blocks.id".to_owned()));
    }
    let ParseResult { root, children, warnings, blocks_created: _ } = parsed;
    let key = "title".to_owned();
    let ghost kk = key;
    let (content, name) = match &title {
        Some(t) => (string_into_bytes(t.clone()), t.clone()),
        None => (crate::model::copy_bytes(&root.content), from_utf8_lossy(root.content.as_slice())),
    };
    let props = single_property(key, name);
    proof {
        assert(props@.contains_key(kk));
        assert(props@.dom() =~= Set::empty().insert(kk));
    }
    let doc = Block {
        id: root.id.clone(),
        parent_id: parent,
        document_id: root.id.clone(),
        position,
        block_type: BlockType::Document,
        content,
        properties: props,
        version: root.version,
        status: root.status,
        schema_version: root.schema_version,
        encrypted: root.encrypted,
        created: root.created.clone(),
        modified: root.modified.clone(),
        author: root.author.clone(),
        owner_id: match &root.owner_id {
            Some(o) => Some(o.clone()),
            None => None,
        },
    };
    let res_root = copy_block(&doc);
    let ghost doc_v = doc;
    proof {
        lemma_index_of(s0, doc.id@);
        if doc.parent_id@ == doc.id@ {
            if parent_id is Some {
                lemma_index_of(s0, parent_id->Some_0@);
            } else {
                assert(doc.id@.len() == 20);
                reveal_strlit("/");
            }
        }
    }
    store.push_row(doc);
    let n = children.len();
    let mut k: usize = 0;
    while k < n
        invariant
            n == children@.len(),
            children@ == parsed.children@,
            root == parsed.root,
            k <= n,
            store_wf(store@),
            fresh_ids(s0, parsed),
            parse_shape(parsed),
            store@.len() == s0.len() + 1 + k,
            store@.take(s0.len() as int) == s0,
            store@[s0.len() as int] == doc_v,
            doc_v.id@ == parsed.root.id@,
            forall|t: int| 0 <= t < k ==> same_block(#[trigger] store@[s0.len() + 1 + t], children@[t]),
        decreases n - k,
    {
        let b = copy_block(&children[k]);
        proof {
            assert(parsed.children@[k as int] == children@[k as int]);
            lemma_child_insertable(s0, store@, parsed, k as int);
        }
        store.push_row(b);
        proof {
            let s = store@;
            let m = s0.len() as int;
            assert(s.take(m) =~= s.drop_last().take(m));
            assert(s[m] == s.drop_last()[m]);
        }
        k += 1;
    }
    proof {
        let s = store@;
        let m = s0.len() as int;
        assert(s.skip(m + 1).len() == children@.len());
        assert forall|t: int| 0 <= t < children@.len() implies same_block(#[trigger] s.skip(m + 1)[t], children@[t]) by {
            assert(s.skip(m + 1)[t] == s[m + 1 + t]);
        }
        assert(s[m] == s.take(m + 1)[m]);
    }
    let total = store.len();
    assert(1 + n <= total);
    Ok(ImportResult { root: res_root, blocks_imported: 1 + n, warnings })
}

/// What parsing `text` hands back, as the Markdown parser promises it.
pub open spec fn parsed_from(text: Seq<char>, p: ParseResult) -> bool {
    if crate::text::trim_spec(text).len() == 0 {
        empty_result_ok(p)
    } else {
        &&& doc_block_ok(p.root)
        &&& blocks_wf(p.children@, p.root.id@, p.root.created@)
    }
}

proof fn lemma_parsed_shape(text: Seq<char>, p: ParseResult)
    requires
        parsed_from(text, p),
    ensures
        parse_shape(p),
{
    if crate::text::trim_spec(text).len() == 0 {
        assert(valid_pos(seq!['a', '0'])) by {
            crate::position::lemma_alpha_char(10);
            crate::position::lemma_alpha_char(0);
        }
    } else {
        let bs = p.children@;
        assert forall|k: int| #![trigger bs[k]] 0 <= k < bs.len() implies valid_pos(bs[k].position@) && (bs[k].parent_id@
            == p.root.id@ || exists|j: int| 0 <= j < k && bs[j].id@ == bs[k].parent_id@) by {
            assert(block_ok(bs, k, p.root.id@, p.root.created@));
            law_parsed_positions_valid(crate::parser::markdown::count_parent(bs.take(k), bs[k].parent_id@));
            if bs[k].parent_id@ != p.root.id@ {
                assert(known(bs.take(k), p.root.id@, bs[k].parent_id@));
                let j = choose|j: int| 0 <= j < bs.take(k).len() && (#[trigger] bs.take(k)[j]).id@ == bs[k].parent_id@;
                assert(bs.take(k)[j] == bs[j]);
            }
        }
    }
}

/// Imports `content`, written in `format` (`markdown` or `md`), as a new
/// document under `parent_id` (the global root when not given), after
/// `after_id` or last, titled `title` or after its first heading.
pub fn import_text(store: &mut BlockStore, req: ImportTextReq) -> (r: Result<ImportResult, AppError>)
    requires
        store_wf(old(store)@),
        req.content@.len() <= crate::parser::markdown::max_line(),
    ensures
        store_wf(final(store)@),
        r matches Err(e) ==> final(store)@ == old(store)@,
        !is_markdown_name(req.format@) ==> (r matches Err(AppError::BadRequest(m)) && m@ == unsupported_message(
            "不支持的源格式: '"@,
            req.format@,
        )),
        is_markdown_name(req.format@) && document_refused(old(store)@, req.parent_id, req.after_id) ==> (r matches Err(e)
            && document_error(old(store)@, req.parent_id, req.after_id, e)),
        r matches Ok(res) ==> is_markdown_name(req.format@) && exists|p: ParseResult|
            #![trigger parsed_from(req.content@, p)]
            {
                let n = old(store)@.len() as int;
                &&& parsed_from(req.content@, p)
                &&& final(store)@.len() == n + 1 + p.children@.len()
                &&& final(store)@.take(n) == old(store)@
                &&& import_root(final(store)@[n], p.root, old(store)@, req.parent_id, req.after_id, req.title)
                &&& similar(final(store)@.skip(n + 1), p.children@)
                &&& same_block(res.root, final(store)@[n])
                &&& res.blocks_imported == 1 + p.children@.len()
            },
{
    let parser = match get_parser(req.format.as_str()) {
        Ok(p) => p,
        Err(e) => {
            return Err(e);
        },
    };
    let parsed = match parser.parse(req.content.as_str(), &ParseOptions {}) {
        Ok(p) => p,
        Err(e) => {
            return Err(e);
        },
    };
    let ghost p = parsed;
    proof {
        lemma_parsed_shape(req.content@, parsed);
    }
    let r = import_parsed(store, req.parent_id, req.after_id, req.title, parsed);
    proof {
        if r is Ok {
            assert(parsed_from(req.content@, p));
        }
    }
    r
}

} // verus!
