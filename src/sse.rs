use vstd::prelude::*;
use crate::json::{parse_json, parsed_json, Json};
use crate::text::{trim_end, trim_end_at, trim_start, trim_start_at};

verus! {

/// The texts held by a list of character vectors.
pub open spec fn views(v: Seq<Vec<char>>) -> Seq<Seq<char>> {
    v.map_values(|l: Vec<char>| l@)
}

/// The text cut at each `sep`: always one more piece than there are separators.
pub open spec fn pieces(t: Seq<char>, sep: char) -> Seq<Seq<char>>
    decreases t.len(),
{
    if t.len() == 0 {
        seq![Seq::<char>::empty()]
    } else {
        let init = pieces(t.drop_last(), sep);
        if t.last() == sep {
            init.push(Seq::<char>::empty())
        } else {
            init.update(init.len() - 1, init.last().push(t.last()))
        }
    }
}

/// The text cut into lines at each line feed.
pub open spec fn lines_of(t: Seq<char>) -> Seq<Seq<char>> {
    pieces(t, '\n')
}

pub open spec fn data_prefix() -> Seq<char> {
    seq!['d', 'a', 't', 'a', ':']
}

/// Whether a line (already trimmed at its end) carries data.
pub open spec fn is_data_line(t: Seq<char>) -> bool {
    t.len() >= 5 && t.subrange(0, 5) == data_prefix()
}

/// One line of an event stream read into (finished blocks, block being assembled):
/// a blank line ends the block being assembled, a `data:` line adds its content to
/// it (after a line feed where it already holds text), any other line is ignored.
pub open spec fn sse_step(st: (Seq<Seq<char>>, Seq<char>), line: Seq<char>) -> (
    Seq<Seq<char>>,
    Seq<char>,
) {
    let t = trim_end(line);
    if t.len() == 0 {
        if st.1.len() > 0 {
            (st.0.push(st.1), Seq::<char>::empty())
        } else {
            st
        }
    } else if is_data_line(t) {
        let content = trim_start(t.subrange(5, t.len() as int));
        if st.1.len() > 0 {
            (st.0, st.1.push('\n') + content)
        } else {
            (st.0, content)
        }
    } else {
        st
    }
}

pub open spec fn sse_scan(lines: Seq<Seq<char>>) -> (Seq<Seq<char>>, Seq<char>)
    decreases lines.len(),
{
    if lines.len() == 0 {
        (Seq::<Seq<char>>::empty(), Seq::<char>::empty())
    } else {
        sse_step(sse_scan(lines.drop_last()), lines.last())
    }
}

/// The data blocks of an event stream, in order; the last one need not end in a blank line.
pub open spec fn sse_blocks(t: Seq<char>) -> Seq<Seq<char>> {
    let st = sse_scan(lines_of(t));
    if st.1.len() > 0 {
        st.0.push(st.1)
    } else {
        st.0
    }
}

/// The blocks that parse as JSON, parsed, in order; the others are dropped.
pub open spec fn parsed_blocks(blocks: Seq<Seq<char>>) -> Seq<Json>
    decreases blocks.len(),
{
    if blocks.len() == 0 {
        Seq::<Json>::empty()
    } else {
        let init = parsed_blocks(blocks.drop_last());
        match parsed_json(blocks.last()) {
            Some(v) => init.push(v),
            None => init,
        }
    }
}

/// The JSON messages of a response text: those of its event-stream blocks, or, where
/// there are none, the whole text as one value if it parses.
pub open spec fn body_messages(t: Seq<char>) -> Seq<Json> {
    let m = parsed_blocks(sse_blocks(t));
    if m.len() > 0 {
        m
    } else {
        match parsed_json(t) {
            Some(v) => seq![v],
            None => Seq::<Json>::empty(),
        }
    }
}

/// The text cut at each `sep` (see `pieces`).
pub fn split_on(text: &[char], sep: char) -> (r: Vec<Vec<char>>)
    ensures
        views(r@) == pieces(text@, sep),
{
    let mut lines: Vec<Vec<char>> = Vec::new();
    let mut cur: Vec<char> = Vec::new();
    let mut i: usize = 0;
    assert(views(lines@).push(cur@) =~= pieces(text@.subrange(0, 0), sep));
    while i < text.len()
        invariant
            i <= text@.len(),
            views(lines@).push(cur@) == pieces(text@.subrange(0, i as int), sep),
        decreases text@.len() - i,
    {
        let c = text[i];
        let ghost before = pieces(text@.subrange(0, i as int), sep);
        assert(text@.subrange(0, i + 1).drop_last() =~= text@.subrange(0, i as int));
        assert(text@.subrange(0, i + 1).last() == c);
        if c == sep {
            let done = cur;
            lines.push(done);
            cur = Vec::new();
            assert(views(lines@).push(cur@) =~= before.push(Seq::<char>::empty()));
        } else {
            cur.push(c);
            assert(views(lines@).push(cur@) =~= before.update(
                before.len() - 1,
                before.last().push(c),
            ));
        }
        i += 1;
    }
    assert(text@.subrange(0, text@.len() as int) =~= text@);
    let ghost before = views(lines@).push(cur@);
    lines.push(cur);
    assert(views(lines@) =~= before);
    lines
}

/// Appends `src[lo..hi]` to `dst`.
fn append_range(dst: &mut Vec<char>, src: &[char], lo: usize, hi: usize)
    requires
        lo <= hi <= src@.len(),
    ensures
        final(dst)@ == old(dst)@ + src@.subrange(lo as int, hi as int),
{
    let mut i: usize = lo;
    while i < hi
        invariant
            lo <= i <= hi <= src@.len(),
            dst@ =~= old(dst)@ + src@.subrange(lo as int, i as int),
        decreases hi - i,
    {
        dst.push(src[i]);
        i += 1;
    }
}

/// The data blocks of an event stream (see `sse_blocks`).
pub fn extract_sse_blocks(text: &[char]) -> (r: Vec<Vec<char>>)
    ensures
        views(r@) == sse_blocks(text@),
{
    let lines = split_on(text, '\n');
    let mut blocks: Vec<Vec<char>> = Vec::new();
    let mut current: Vec<char> = Vec::new();
    let mut k: usize = 0;
    assert(views(lines@).subrange(0, 0) =~= Seq::<Seq<char>>::empty());
    assert(views(blocks@) =~= Seq::<Seq<char>>::empty());
    while k < lines.len()
        invariant
            k <= lines@.len(),
            views(lines@) == lines_of(text@),
            sse_scan(views(lines@).subrange(0, k as int)) == (views(blocks@), current@),
        decreases lines@.len() - k,
    {
        let line = &lines[k];
        let ghost st = (views(blocks@), current@);
        let ghost lv = line@;
        assert(views(lines@).subrange(0, k + 1).drop_last() =~= views(lines@).subrange(0, k as int));
        assert(views(lines@).subrange(0, k + 1).last() == lv);
        let e = trim_end_at(line, 0, line.len());
        assert(lv.subrange(0, lv.len() as int) =~= lv);
        let ghost t = trim_end(lv);
        assert(t == lv.subrange(0, e as int));
        if e == 0 {
            if current.len() > 0 {
                let done = current;
                blocks.push(done);
                current = Vec::new();
                assert(views(blocks@) =~= st.0.push(st.1));
            }
        } else if e >= 5 && line[0] == 'd' && line[1] == 'a' && line[2] == 't' && line[3] == 'a'
            && line[4] == ':' {
            assert(t.subrange(0, 5) =~= data_prefix());
            let s = trim_start_at(line, 5, e);
            assert(t.subrange(5, t.len() as int) =~= lv.subrange(5, e as int));
            if current.len() > 0 {
                current.push('\n');
            }
            append_range(&mut current, line, s, e);
            assert(current@ =~= (if st.1.len() > 0 {
                st.1.push('\n') + trim_start(t.subrange(5, t.len() as int))
            } else {
                trim_start(t.subrange(5, t.len() as int))
            }));
        } else {
            assert(!is_data_line(t)) by {
                if t.len() >= 5 && t.subrange(0, 5) == data_prefix() {
                    assert(t.subrange(0, 5)[0] == 'd');
                    assert(t.subrange(0, 5)[1] == 'a');
                    assert(t.subrange(0, 5)[2] == 't');
                    assert(t.subrange(0, 5)[3] == 'a');
                    assert(t.subrange(0, 5)[4] == ':');
                }
            }
        }
        k += 1;
    }
    assert(views(lines@).subrange(0, lines@.len() as int) =~= views(lines@));
    if current.len() > 0 {
        let ghost st = (views(blocks@), current@);
        blocks.push(current);
        assert(views(blocks@) =~= st.0.push(st.1));
    }
    blocks
}

/// The event-stream blocks of the text that parse as JSON, in order.
pub fn extract_sse_json_messages(text: &[char]) -> (r: Vec<Json>)
    ensures
        r@ == parsed_blocks(sse_blocks(text@)),
{
    let blocks = extract_sse_blocks(text);
    let mut messages: Vec<Json> = Vec::new();
    let mut k: usize = 0;
    assert(views(blocks@).subrange(0, 0) =~= Seq::<Seq<char>>::empty());
    while k < blocks.len()
        invariant
            k <= blocks@.len(),
            views(blocks@) == sse_blocks(text@),
            messages@ == parsed_blocks(views(blocks@).subrange(0, k as int)),
        decreases blocks@.len() - k,
    {
        assert(views(blocks@).subrange(0, k + 1).drop_last() =~= views(blocks@).subrange(0, k as int));
        assert(views(blocks@).subrange(0, k + 1).last() == blocks@[k as int]@);
        match parse_json(blocks[k].as_slice()) {
            Some(v) => messages.push(v),
            None => {},
        }
        k += 1;
    }
    assert(views(blocks@).subrange(0, blocks@.len() as int) =~= views(blocks@));
    messages
}

/// The JSON messages of a response text (see `body_messages`).
pub fn extract_messages(text: &[char]) -> (r: Vec<Json>)
    ensures
        r@ == body_messages(text@),
{
    let mut messages = extract_sse_json_messages(text);
    if messages.len() == 0 {
        match parse_json(text) {
            Some(v) => {
                messages.push(v);
                assert(messages@ =~= seq![v]);
            },
            None => {
                assert(messages@ =~= Seq::<Json>::empty());
            },
        }
    }
    messages
}

} // verus!
