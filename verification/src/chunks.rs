//! Text-block extraction: a depth-first traversal that folds the text
//! of inline elements into the nearest enclosing block and emits one
//! chunk per flushed block.
//!
//! A buffer of trimmed, non-empty text fragments grows while walking;
//! leaving a non-inline element flushes it (a `p` with an empty buffer
//! does not), joining the fragments with single spaces. Each chunk
//! remembers the tag of the element that flushed it. Text that is still
//! buffered when the walk ends becomes one trailing chunk attributed to
//! the traversal root. Block text nested inside a flushed block is
//! never duplicated: a chunk carries only the buffered fragments, not
//! the markup of its element.

use vstd::prelude::*;
use vstd::string::StringSliceAdditionalSpecFns;
use crate::dom::{Dom, GDom, kids, dom_size, dom_size_seq, lemma_dom_size_elem};
use crate::strutil::{trim_of, trim, join_with, join_bytes, seqs_of, words_of, is_lit, lit};

verus! {

/// A chunk in specifications: its text and the tag that flushed it.
#[verifier::ext_equal]
pub struct GChunk {
    pub text: Seq<u8>,
    pub tag: Seq<u8>,
}

/// The traversal state: buffered fragments and emitted chunks.
#[verifier::ext_equal]
pub struct ChunkState {
    pub buf: Seq<Seq<u8>>,
    pub chunks: Seq<GChunk>,
}

/// Tags whose end never flushes the buffer.
pub open spec fn inline_tag(t: Seq<u8>) -> bool {
    ||| t == "a".spec_bytes()
    ||| t == "abbr".spec_bytes()
    ||| t == "acronym".spec_bytes()
    ||| t == "b".spec_bytes()
    ||| t == "bdo".spec_bytes()
    ||| t == "big".spec_bytes()
    ||| t == "br".spec_bytes()
    ||| t == "button".spec_bytes()
    ||| t == "cite".spec_bytes()
    ||| t == "code".spec_bytes()
    ||| t == "dfn".spec_bytes()
    ||| t == "em".spec_bytes()
    ||| t == "i".spec_bytes()
    ||| t == "img".spec_bytes()
    ||| t == "input".spec_bytes()
    ||| t == "kbd".spec_bytes()
    ||| t == "label".spec_bytes()
    ||| t == "map".spec_bytes()
    ||| t == "object".spec_bytes()
    ||| t == "q".spec_bytes()
    ||| t == "samp".spec_bytes()
    ||| t == "script".spec_bytes()
    ||| t == "select".spec_bytes()
    ||| t == "small".spec_bytes()
    ||| t == "span".spec_bytes()
    ||| t == "strong".spec_bytes()
    ||| t == "sub".spec_bytes()
    ||| t == "sup".spec_bytes()
    ||| t == "textarea".spec_bytes()
    ||| t == "time".spec_bytes()
    ||| t == "tt".spec_bytes()
    ||| t == "var".spec_bytes()
}

pub fn inline_tag_exec(t: &[u8]) -> (r: bool)
    ensures
        r == inline_tag(t@),
{
    is_lit(t, "a") || is_lit(t, "abbr") || is_lit(t, "acronym") || is_lit(t, "b") || is_lit(
        t,
        "bdo",
    ) || is_lit(t, "big") || is_lit(t, "br") || is_lit(t, "button") || is_lit(t, "cite") || is_lit(
        t,
        "code",
    ) || is_lit(t, "dfn") || is_lit(t, "em") || is_lit(t, "i") || is_lit(t, "img") || is_lit(
        t,
        "input",
    ) || is_lit(t, "kbd") || is_lit(t, "label") || is_lit(t, "map") || is_lit(t, "object")
        || is_lit(t, "q") || is_lit(t, "samp") || is_lit(t, "script") || is_lit(t, "select")
        || is_lit(t, "small") || is_lit(t, "span") || is_lit(t, "strong") || is_lit(t, "sub")
        || is_lit(t, "sup") || is_lit(t, "textarea") || is_lit(t, "time") || is_lit(t, "tt")
        || is_lit(t, "var")
}

/// Tags whose chunks are headers rather than plain content.
pub open spec fn header_tag(t: Seq<u8>) -> bool {
    ||| t == "h1".spec_bytes()
    ||| t == "h2".spec_bytes()
    ||| t == "h3".spec_bytes()
    ||| t == "h4".spec_bytes()
    ||| t == "h5".spec_bytes()
    ||| t == "h6".spec_bytes()
    ||| t == "header".spec_bytes()
}

pub fn header_tag_exec(t: &[u8]) -> (r: bool)
    ensures
        r == header_tag(t@),
{
    is_lit(t, "h1") || is_lit(t, "h2") || is_lit(t, "h3") || is_lit(t, "h4") || is_lit(t, "h5")
        || is_lit(t, "h6") || is_lit(t, "header")
}

/// What leaving an element does to the state: a non-inline tag flushes
/// the buffer into one chunk, unless the tag is `p` and the buffer is
/// empty, or the joined text is empty.
pub open spec fn flush_on_leave(tag: Seq<u8>, st: ChunkState) -> ChunkState {
    if inline_tag(tag) || (tag == "p".spec_bytes() && st.buf.len() == 0) {
        st
    } else {
        let text = trim_of(join_with(st.buf, " ".spec_bytes()));
        if text.len() > 0 {
            ChunkState { buf: Seq::empty(), chunks: st.chunks.push(GChunk { text, tag }) }
        } else {
            st
        }
    }
}

/// What entering a text node does to the state.
pub open spec fn take_text(text: Seq<u8>, st: ChunkState) -> ChunkState {
    if trim_of(text).len() > 0 {
        ChunkState { buf: st.buf.push(trim_of(text)), chunks: st.chunks }
    } else {
        st
    }
}

/// The depth-first walk over one node.
pub open spec fn walk_node(g: GDom, st: ChunkState) -> ChunkState
    decreases g, 1nat,
{
    match g {
        GDom::Text { text } => take_text(text, st),
        GDom::Element { tag, attrs, children } => flush_on_leave(tag, walk_seq(children, st)),
        GDom::Document { children } => walk_seq(children, st),
        _ => st,
    }
}

pub open spec fn walk_seq(s: Seq<GDom>, st: ChunkState) -> ChunkState
    decreases s, 0nat,
{
    if s.len() == 0 {
        st
    } else {
        walk_seq(s.subrange(1, s.len() as int), walk_node(s[0], st))
    }
}

/// The tag a trailing chunk is attributed to: the root's own tag, or
/// `body` when the root is not an element.
pub open spec fn root_tag(g: GDom) -> Seq<u8> {
    if g is Element {
        g->Element_tag
    } else {
        "body".spec_bytes()
    }
}

/// All chunks of a traversal from `root`, before any word filter.
pub open spec fn raw_chunks_of(root: GDom) -> Seq<GChunk> {
    let st = walk_node(root, ChunkState { buf: Seq::empty(), chunks: Seq::empty() });
    if st.buf.len() > 0 {
        let text = trim_of(join_with(st.buf, " ".spec_bytes()));
        if text.len() > 0 {
            st.chunks.push(GChunk { text, tag: root_tag(root) })
        } else {
            st.chunks
        }
    } else {
        st.chunks
    }
}

/// Whether a chunk survives the minimum-word filter.
pub open spec fn chunk_kept(c: GChunk, min_words: Option<usize>) -> bool {
    match min_words {
        Option::None => true,
        Option::Some(m) => words_of(c.text).len() >= m,
    }
}

/// The surviving chunks among the first `n`, each paired with its
/// original order number.
pub open spec fn picked_chunks(cs: Seq<GChunk>, min_words: Option<usize>, n: int) -> Seq<
    (int, GChunk),
>
    decreases n,
{
    if n <= 0 {
        Seq::empty()
    } else {
        let rest = picked_chunks(cs, min_words, n - 1);
        if chunk_kept(cs[n - 1], min_words) {
            rest.push((n - 1, cs[n - 1]))
        } else {
            rest
        }
    }
}

/// The chunk list a traversal of `root` produces: every flushed block
/// in document order, each with its order number, with chunks under
/// the word threshold dropped.
pub open spec fn text_chunks_of(root: GDom, min_words: Option<usize>) -> Seq<(int, GChunk)> {
    picked_chunks(raw_chunks_of(root), min_words, raw_chunks_of(root).len() as int)
}

/// One extracted text chunk: its order number in the traversal, its
/// text, the tag of the element that flushed it, and that tag's
/// classification (`header` or `content`).
pub struct TextChunk {
    pub index: usize,
    pub text: Vec<u8>,
    pub tag: Vec<u8>,
    pub tag_type: Vec<u8>,
}

/// The ghost chunks of an extracted list, without order numbers.
pub open spec fn gchunks_of(v: Seq<TextChunk>) -> Seq<GChunk> {
    Seq::new(v.len(), |i: int| GChunk { text: v[i].text@, tag: v[i].tag@ })
}

/// The ghost chunks of an extracted list, with their order numbers.
pub open spec fn indexed_chunks_of(v: Seq<TextChunk>) -> Seq<(int, GChunk)> {
    Seq::new(v.len(), |i: int| (v[i].index as int, GChunk { text: v[i].text@, tag: v[i].tag@ }))
}

pub open spec fn tag_type_of(tag: Seq<u8>) -> Seq<u8> {
    if header_tag(tag) {
        "header".spec_bytes()
    } else {
        "content".spec_bytes()
    }
}

/// Index and tag classification are consistent in an extracted list.
pub open spec fn chunks_wf(v: Seq<TextChunk>) -> bool {
    forall|j: int|
        0 <= j < v.len() ==> (#[trigger] v[j]).index == j && v[j].tag_type@ == tag_type_of(
            v[j].tag@,
        )
}

fn walk_exec(d: &Dom, buf: &mut Vec<Vec<u8>>, chunks: &mut Vec<TextChunk>)
    requires
        chunks_wf(old(chunks)@),
    ensures
        chunks_wf(final(chunks)@),
        seqs_of(*final(buf)) == walk_node(
            d@,
            ChunkState { buf: seqs_of(*old(buf)), chunks: gchunks_of(old(chunks)@) },
        ).buf,
        gchunks_of(final(chunks)@) == walk_node(
            d@,
            ChunkState { buf: seqs_of(*old(buf)), chunks: gchunks_of(old(chunks)@) },
        ).chunks,
    decreases dom_size(d@), 1nat,
{
    let ghost st0 = ChunkState { buf: seqs_of(*buf), chunks: gchunks_of(chunks@) };
    match d {
        Dom::Text { text } => {
            let t = trim(text.as_slice());
            if t.len() > 0 {
                let ghost old_buf = seqs_of(*buf);
                let ghost tv = t@;
                buf.push(t);
                proof {
                    assert(seqs_of(*buf) =~= old_buf.push(tv));
                }
            }
        },
        Dom::Element { tag, attrs, children } => {
            walk_children(children, buf, chunks, Ghost(d@));
            let ghost st1 = ChunkState { buf: seqs_of(*buf), chunks: gchunks_of(chunks@) };
            let flush = !(inline_tag_exec(tag.as_slice()) || (is_lit(tag.as_slice(), "p")
                && buf.len() == 0));
            if flush {
                let joined = join_bytes(buf, " ".as_bytes());
                let text = trim(joined.as_slice());
                if text.len() > 0 {
                    let tag_c = vstd::slice::slice_to_vec(tag.as_slice());
                    let tt = if header_tag_exec(tag.as_slice()) {
                        lit("header")
                    } else {
                        lit("content")
                    };
                    let ghost old_chunks = gchunks_of(chunks@);
                    let ghost tag_v = tag@;
                    let ghost text_v = text@;
                    let c = TextChunk { index: chunks.len(), text, tag: tag_c, tag_type: tt };
                    chunks.push(c);
                    buf.clear();
                    proof {
                        assert(seqs_of(*buf) =~= Seq::<Seq<u8>>::empty());
                        assert(gchunks_of(chunks@) =~= old_chunks.push(
                            GChunk { text: text_v, tag: tag_v },
                        ));
                        assert(flush_on_leave(tag_v, st1).chunks =~= gchunks_of(chunks@));
                    }
                }
            }
        },
        Dom::Document { children } => {
            walk_children(children, buf, chunks, Ghost(d@));
        },
        Dom::Comment => {
        },
        Dom::Other => {
        },
    }
}

fn walk_children(
    children: &Vec<Dom>,
    buf: &mut Vec<Vec<u8>>,
    chunks: &mut Vec<TextChunk>,
    parent: Ghost<GDom>,
)
    requires
        kids(parent@).len() == children@.len(),
        forall|j: int| 0 <= j < children@.len() ==> kids(parent@)[j] == children@[j]@,
        chunks_wf(old(chunks)@),
    ensures
        chunks_wf(final(chunks)@),
        seqs_of(*final(buf)) == walk_seq(
            kids(parent@),
            ChunkState { buf: seqs_of(*old(buf)), chunks: gchunks_of(old(chunks)@) },
        ).buf,
        gchunks_of(final(chunks)@) == walk_seq(
            kids(parent@),
            ChunkState { buf: seqs_of(*old(buf)), chunks: gchunks_of(old(chunks)@) },
        ).chunks,
    decreases dom_size(parent@), 0nat,
{
    let ghost gkids = kids(parent@);
    let ghost st0 = ChunkState { buf: seqs_of(*buf), chunks: gchunks_of(chunks@) };
    let mut i: usize = 0;
    proof {
        assert(gkids.subrange(0, gkids.len() as int) =~= gkids);
    }
    while i < children.len()
        invariant
            i <= children.len(),
            gkids == kids(parent@),
            gkids.len() == children@.len(),
            forall|j: int| 0 <= j < children@.len() ==> gkids[j] == children@[j]@,
            dom_size_seq(gkids) < dom_size(parent@),
            chunks_wf(chunks@),
            st0 == (ChunkState { buf: seqs_of(*old(buf)), chunks: gchunks_of(old(chunks)@) }),
            walk_seq(gkids, st0) == walk_seq(
                gkids.subrange(i as int, gkids.len() as int),
                ChunkState { buf: seqs_of(*buf), chunks: gchunks_of(chunks@) },
            ),
        decreases children.len() - i,
    {
        proof {
            lemma_dom_size_elem(gkids, i as int);
            assert(gkids.subrange(i as int, gkids.len() as int)[0] == gkids[i as int]);
        }
        walk_exec(&children[i], buf, chunks);
        proof {
            assert(gkids.subrange(i as int, gkids.len() as int).subrange(
                1,
                gkids.len() - i,
            ) =~= gkids.subrange(i + 1, gkids.len() as int));
        }
        i = i + 1;
    }
    proof {
        assert(gkids.subrange(children@.len() as int, gkids.len() as int)
            =~= Seq::<GDom>::empty());
        assert(gkids.subrange(0, gkids.len() as int) =~= gkids);
    }
}

/// Extracts the ordered text chunks of a traversal from `root`,
/// dropping chunks under the word threshold when one is given.
pub fn extract_chunks(root: &Dom, min_words: Option<usize>) -> (r: Vec<TextChunk>)
    ensures
        indexed_chunks_of(r@) == text_chunks_of(root@, min_words),
        forall|j: int|
            0 <= j < r@.len() ==> (#[trigger] r@[j]).tag_type@ == tag_type_of(r@[j].tag@),
{
    let mut buf: Vec<Vec<u8>> = Vec::new();
    let mut chunks: Vec<TextChunk> = Vec::new();
    proof {
        assert(seqs_of(buf) =~= Seq::<Seq<u8>>::empty());
        assert(gchunks_of(chunks@) =~= Seq::<GChunk>::empty());
    }
    walk_exec(root, &mut buf, &mut chunks);
    if buf.len() > 0 {
        let joined = join_bytes(&buf, " ".as_bytes());
        let text = trim(joined.as_slice());
        if text.len() > 0 {
            let tag_c = match root {
                Dom::Element { tag, attrs, children } => vstd::slice::slice_to_vec(
                    tag.as_slice(),
                ),
                _ => lit("body"),
            };
            let tt = if header_tag_exec(tag_c.as_slice()) {
                lit("header")
            } else {
                lit("content")
            };
            let ghost old_chunks = gchunks_of(chunks@);
            let ghost tag_v = tag_c@;
            let ghost text_v = text@;
            let c = TextChunk { index: chunks.len(), text, tag: tag_c, tag_type: tt };
            chunks.push(c);
            proof {
                assert(gchunks_of(chunks@) =~= old_chunks.push(
                    GChunk { text: text_v, tag: tag_v },
                ));
            }
        }
    }
    let ghost raw = raw_chunks_of(root@);
    proof {
        assert(gchunks_of(chunks@) =~= raw);
    }
    let mut out: Vec<TextChunk> = Vec::new();
    proof {
        assert(indexed_chunks_of(out@) =~= Seq::<(int, GChunk)>::empty());
    }
    let mut i: usize = 0;
    while i < chunks.len()
        invariant
            i <= chunks.len(),
            raw == raw_chunks_of(root@),
            chunks@.len() == raw.len(),
            chunks_wf(chunks@),
            forall|j: int|
                0 <= j < chunks@.len() ==> (#[trigger] chunks@[j]).text@ == raw[j].text
                    && chunks@[j].tag@ == raw[j].tag,
            indexed_chunks_of(out@) == picked_chunks(raw, min_words, i as int),
            forall|j: int|
                0 <= j < out@.len() ==> (#[trigger] out@[j]).tag_type@ == tag_type_of(
                    out@[j].tag@,
                ),
        decreases chunks.len() - i,
    {
        let keep = match min_words {
            Option::Some(m) => {
                let wc = crate::strutil::word_count(chunks[i].text.as_slice());
                wc >= m
            },
            Option::None => true,
        };
        if keep {
            let ghost old_out = indexed_chunks_of(out@);
            let c = TextChunk {
                index: chunks[i].index,
                text: vstd::slice::slice_to_vec(chunks[i].text.as_slice()),
                tag: vstd::slice::slice_to_vec(chunks[i].tag.as_slice()),
                tag_type: vstd::slice::slice_to_vec(chunks[i].tag_type.as_slice()),
            };
            out.push(c);
            proof {
                assert(indexed_chunks_of(out@) =~~= old_out.push(
                    (
                        i as int,
                        GChunk { text: chunks@[i as int].text@, tag: chunks@[i as int].tag@ },
                    ),
                ));
            }
        }
        i = i + 1;
    }
    proof {
        assert(indexed_chunks_of(out@) =~~= text_chunks_of(root@, min_words));
    }
    out
}

} // verus!
