//! Finding ```` ```obgraph ```` fenced blocks in markdown and splicing their
//! rendered output back in.
//!
//! An opening fence is ```` ```obgraph ```` at the start of a line, possibly
//! after spaces, with only whitespace after it on its line. Its block ends at
//! the first later line that is ```` ``` ```` once the whitespace around it is
//! trimmed; the block runs up to those backticks. Positions count characters.
use vstd::prelude::*;

use crate::text::push_char;

verus! {

/// `char::is_whitespace`: the characters with the Unicode `White_Space`
/// property.
pub open spec fn is_unicode_whitespace(c: char) -> bool {
    let u = c as u32;
    (0x09 <= u <= 0x0d) || u == 0x20 || u == 0x85 || u == 0xa0 || u == 0x1680 || (0x2000 <= u
        <= 0x200a) || u == 0x2028 || u == 0x2029 || u == 0x202f || u == 0x205f || u == 0x3000
}

pub fn is_whitespace(c: char) -> (r: bool)
    ensures
        r == is_unicode_whitespace(c),
{
    let u = c as u32;
    (0x09 <= u && u <= 0x0d) || u == 0x20 || u == 0x85 || u == 0xa0 || u == 0x1680 || (0x2000 <= u
        && u <= 0x200a) || u == 0x2028 || u == 0x2029 || u == 0x202f || u == 0x205f || u == 0x3000
}

pub open spec fn fence_marker() -> Seq<char> {
    seq!['`', '`', '`', 'o', 'b', 'g', 'r', 'a', 'p', 'h']
}

pub open spec fn closing_marker() -> Seq<char> {
    seq!['`', '`', '`']
}

/// Everything from `k` up to the end of its line (the newline included) is
/// whitespace.
pub open spec fn blank_to_line_end(s: Seq<char>, k: int) -> bool
    decreases s.len() - k,
{
    if k < 0 || k >= s.len() {
        true
    } else if s[k] == '\n' {
        true
    } else {
        is_unicode_whitespace(s[k]) && blank_to_line_end(s, k + 1)
    }
}

/// Only spaces stand between the start of the line and position `j`.
pub open spec fn spaces_from_line_start(s: Seq<char>, j: int) -> bool
    decreases j,
{
    if j <= 0 || j > s.len() {
        true
    } else if s[j - 1] == '\n' {
        true
    } else {
        s[j - 1] == ' ' && spaces_from_line_start(s, j - 1)
    }
}

/// `s[i..i + m.len()]` is `m`.
pub open spec fn marker_at(s: Seq<char>, i: int, m: Seq<char>) -> bool {
    0 <= i && i + m.len() <= s.len() && s.subrange(i, i + m.len()) == m
}

/// An opening fence starts at `i`.
pub open spec fn is_fence_at(s: Seq<char>, i: int) -> bool {
    &&& marker_at(s, i, fence_marker())
    &&& spaces_from_line_start(s, i)
    &&& blank_to_line_end(s, i + 10)
}

/// The first opening fence at or after `i`.
pub open spec fn fence_from(s: Seq<char>, i: int) -> Option<int>
    decreases s.len() - i,
{
    if i < 0 || i + 10 > s.len() {
        None
    } else if is_fence_at(s, i) {
        Some(i)
    } else {
        fence_from(s, i + 1)
    }
}

/// The first newline at or after `k`.
pub open spec fn newline_from(s: Seq<char>, k: int) -> Option<int>
    decreases s.len() - k,
{
    if k < 0 || k >= s.len() {
        None
    } else if s[k] == '\n' {
        Some(k)
    } else {
        newline_from(s, k + 1)
    }
}

/// Only whitespace stands between the start of the line and position `j`.
pub open spec fn blank_from_line_start(s: Seq<char>, j: int) -> bool
    decreases j,
{
    if j <= 0 || j > s.len() {
        true
    } else if s[j - 1] == '\n' {
        true
    } else {
        is_unicode_whitespace(s[j - 1]) && blank_from_line_start(s, j - 1)
    }
}

/// The ```` ``` ```` of a closing fence line stands at `l`: its line is
/// ```` ``` ```` with only whitespace before and after it.
pub open spec fn is_closing_at(s: Seq<char>, l: int) -> bool {
    &&& 1 <= l
    &&& marker_at(s, l, closing_marker())
    &&& blank_from_line_start(s, l)
    &&& blank_to_line_end(s, l + 3)
}

/// The backticks of the first closing fence line at or after `l`.
pub open spec fn closing_from(s: Seq<char>, l: int) -> Option<int>
    decreases s.len() - l,
{
    if l < 1 || l + 3 > s.len() {
        None
    } else if is_closing_at(s, l) {
        Some(l)
    } else {
        closing_from(s, l + 1)
    }
}

/// Where the block that follows an opening fence ends: `s` starts just after
/// ```` ```obgraph ````; the closing fence is looked for from the next line on.
pub open spec fn closing_fence(s: Seq<char>) -> Option<int> {
    match newline_from(s, 0) {
        None => None,
        Some(nl) => closing_from(s, nl + 1),
    }
}

/// A piece of markdown: text kept as it is, or the content of an obgraph
/// block (from just after ```` ```obgraph ```` to just before the closing
/// ```` ``` ````).
pub enum Piece {
    Text(Seq<char>),
    Block(Seq<char>),
}

/// How `s` splits into text and obgraph blocks. An opening fence without a
/// closing one is text.
pub open spec fn pieces(s: Seq<char>) -> Seq<Piece>
    decreases s.len(),
{
    match fence_from(s, 0) {
        None => seq![Piece::Text(s)],
        Some(i) => {
            let after = s.subrange(i + 10, s.len() as int);
            match closing_fence(after) {
                None => seq![Piece::Text(s)],
                Some(e) => if 0 <= i && 0 <= e && e + 3 <= after.len() && i + 10 <= s.len() {
                    seq![Piece::Text(s.subrange(0, i)), Piece::Block(after.subrange(0, e))] + pieces(
                        after.subrange(e + 3, after.len() as int),
                    )
                } else {
                    seq![Piece::Text(s)]
                },
            }
        },
    }
}

/// The contents of the blocks, in order.
pub open spec fn block_contents(ps: Seq<Piece>) -> Seq<Seq<char>>
    decreases ps.len(),
{
    if ps.len() == 0 {
        Seq::empty()
    } else {
        match ps[0] {
            Piece::Text(_) => block_contents(ps.drop_first()),
            Piece::Block(b) => seq![b] + block_contents(ps.drop_first()),
        }
    }
}

/// What replaces a block: its rendering, or an HTML comment with the error
/// followed by the original fenced block.
pub open spec fn block_output(b: Seq<char>, r: Result<Seq<char>, Seq<char>>) -> Seq<char> {
    match r {
        Ok(svg) => svg,
        Err(msg) => "<!-- mdbook-obgraph error: "@ + msg + " -->\n```obgraph"@ + b + "```"@,
    }
}

/// The pieces put back together, the `k`-th block replaced by the output
/// for the `k`-th rendering result.
pub open spec fn assemble(ps: Seq<Piece>, rs: Seq<Result<Seq<char>, Seq<char>>>) -> Seq<char>
    decreases ps.len(),
{
    if ps.len() == 0 {
        Seq::empty()
    } else {
        match ps[0] {
            Piece::Text(t) => t + assemble(ps.drop_first(), rs),
            Piece::Block(b) => block_output(b, rs[0]) + assemble(ps.drop_first(), rs.drop_first()),
        }
    }
}

pub open spec fn result_view(r: Result<String, String>) -> Result<Seq<char>, Seq<char>> {
    match r {
        Ok(s) => Ok(s@),
        Err(e) => Err(e@),
    }
}

pub open spec fn result_views(rs: Seq<Result<String, String>>) -> Seq<Result<Seq<char>, Seq<char>>> {
    rs.map_values(|r: Result<String, String>| result_view(r))
}

// ---------------------------------------------------------------------------
// Executable scanning
// ---------------------------------------------------------------------------

/// The characters of a string.
pub fn chars_of(s: &str) -> (v: Vec<char>)
    ensures
        v@ == s@,
{
    let mut v: Vec<char> = Vec::new();
    for c in it: s.chars()
        invariant
            v@ == it.seq().take(it.index() as int),
    {
        v.push(c);
    }
    v
}

/// The string made of characters `v`.
pub fn string_of(v: &Vec<char>) -> (s: String)
    ensures
        s@ == v@,
{
    let mut s = String::new();
    let mut i: usize = 0;
    while i < v.len()
        invariant
            i <= v@.len(),
            s@ == v@.take(i as int),
        decreases v@.len() - i,
    {
        push_char(&mut s, v[i]);
        proof {
            assert(v@.take((i + 1) as int) == v@.take(i as int).push(v@[i as int]));
        }
        i = i + 1;
    }
    proof {
        assert(v@.take(v@.len() as int) == v@);
    }
    s
}

/// Whether everything from `k` to the end of its line is whitespace.
fn blank_from(s: &Vec<char>, k: usize) -> (r: bool)
    ensures
        r == blank_to_line_end(s@, k as int),
{
    let mut j = k;
    while j < s.len() && s[j] != '\n'
        invariant
            k <= j,
            blank_to_line_end(s@, k as int) == blank_to_line_end(s@, j as int),
        decreases s@.len() - j,
    {
        if !is_whitespace(s[j]) {
            return false;
        }
        j = j + 1;
    }
    true
}

/// Whether only spaces stand between the start of its line and `i`.
fn spaces_before(s: &Vec<char>, i: usize) -> (r: bool)
    requires
        i <= s@.len(),
    ensures
        r == spaces_from_line_start(s@, i as int),
{
    let mut j = i;
    while j > 0 && s[j - 1] == ' '
        invariant
            j <= i,
            i <= s@.len(),
            spaces_from_line_start(s@, i as int) == spaces_from_line_start(s@, j as int),
        decreases j,
    {
        j = j - 1;
    }
    j == 0 || s[j - 1] == '\n'
}

/// Whether only whitespace stands between the start of its line and `i`.
fn blank_before(s: &Vec<char>, i: usize) -> (r: bool)
    requires
        i <= s@.len(),
    ensures
        r == blank_from_line_start(s@, i as int),
{
    let mut j = i;
    while j > 0 && s[j - 1] != '\n' && is_whitespace(s[j - 1])
        invariant
            j <= i,
            i <= s@.len(),
            blank_from_line_start(s@, i as int) == blank_from_line_start(s@, j as int),
        decreases j,
    {
        j = j - 1;
    }
    j == 0 || s[j - 1] == '\n'
}

/// Whether ```` ```obgraph ```` stands at `i`.
fn fence_marker_at(s: &Vec<char>, i: usize) -> (r: bool)
    ensures
        r == marker_at(s@, i as int, fence_marker()),
{
    if i > s.len() || s.len() - i < 10 {
        return false;
    }
    let r = s[i] == '`' && s[i + 1] == '`' && s[i + 2] == '`' && s[i + 3] == 'o' && s[i + 4] == 'b'
        && s[i + 5] == 'g' && s[i + 6] == 'r' && s[i + 7] == 'a' && s[i + 8] == 'p' && s[i + 9]
        == 'h';
    proof {
        let sub = s@.subrange(i as int, i + 10);
        if r {
            assert(sub =~= fence_marker());
        } else if sub == fence_marker() {
            assert(sub[0] == s@[i as int]);
            assert(sub[1] == s@[i + 1]);
            assert(sub[2] == s@[i + 2]);
            assert(sub[3] == s@[i + 3]);
            assert(sub[4] == s@[i + 4]);
            assert(sub[5] == s@[i + 5]);
            assert(sub[6] == s@[i + 6]);
            assert(sub[7] == s@[i + 7]);
            assert(sub[8] == s@[i + 8]);
            assert(sub[9] == s@[i + 9]);
        }
    }
    r
}

/// Whether ```` ``` ```` stands at `l`.
fn closing_marker_at(s: &Vec<char>, l: usize) -> (r: bool)
    ensures
        r == marker_at(s@, l as int, closing_marker()),
{
    if l > s.len() || s.len() - l < 3 {
        return false;
    }
    let r = s[l] == '`' && s[l + 1] == '`' && s[l + 2] == '`';
    proof {
        let sub = s@.subrange(l as int, l + 3);
        if r {
            assert(sub =~= closing_marker());
        } else if sub == closing_marker() {
            assert(sub[0] == s@[l as int]);
            assert(sub[1] == s@[l + 1]);
            assert(sub[2] == s@[l + 2]);
        }
    }
    r
}

/// Find the position of the next ```` ```obgraph ```` opener in `s`: at the
/// start of a line, possibly after leading spaces, with nothing but
/// whitespace after it on its line.
fn find_obgraph_fence(s: &Vec<char>) -> (r: Option<usize>)
    ensures
        r matches Some(i) ==> fence_from(s@, 0) == Some(i as int) && i + 10 <= s@.len(),
        r is None ==> fence_from(s@, 0) is None,
{
    let mut i: usize = 0;
    while i <= s.len() && s.len() - i >= 10
        invariant
            fence_from(s@, 0) == fence_from(s@, i as int),
        decreases s@.len() - i,
    {
        if fence_marker_at(s, i) && spaces_before(s, i) && blank_from(s, i + 10) {
            return Some(i);
        }
        i = i + 1;
    }
    None
}

/// Given the content just after ```` ```obgraph ````, find the position of
/// the closing ```` ``` ````: on the first later line that is ```` ``` ````
/// with nothing but whitespace before and after it.
fn find_closing_fence(s: &Vec<char>) -> (r: Option<usize>)
    ensures
        r matches Some(l) ==> closing_fence(s@) == Some(l as int) && l + 3 <= s@.len(),
        r is None ==> closing_fence(s@) is None,
{
    let mut k: usize = 0;
    while k < s.len() && s[k] != '\n'
        invariant
            newline_from(s@, 0) == newline_from(s@, k as int),
        decreases s@.len() - k,
    {
        k = k + 1;
    }
    if k >= s.len() {
        return None;
    }
    let mut l: usize = k + 1;
    while l <= s.len() && s.len() - l >= 3
        invariant
            1 <= l,
            closing_fence(s@) == closing_from(s@, l as int),
        decreases s@.len() - l,
    {
        if closing_marker_at(s, l) && blank_before(s, l) && blank_from(s, l + 3) {
            return Some(l);
        }
        l = l + 1;
    }
    None
}

/// `v[from..to]` as a new vector.
fn slice_of(v: &Vec<char>, from: usize, to: usize) -> (r: Vec<char>)
    requires
        from <= to <= v@.len(),
    ensures
        r@ == v@.subrange(from as int, to as int),
{
    let mut r: Vec<char> = Vec::new();
    let mut i = from;
    while i < to
        invariant
            from <= i <= to,
            to <= v@.len(),
            r@ == v@.subrange(from as int, i as int),
        decreases to - i,
    {
        r.push(v[i]);
        proof {
            assert(v@.subrange(from as int, (i + 1) as int) =~= v@.subrange(from as int, i as int).push(
                v@[i as int],
            ));
        }
        i = i + 1;
    }
    r
}

/// Appends all of `src` to `out`.
fn append_all(out: &mut Vec<char>, src: &Vec<char>)
    ensures
        final(out)@ == old(out)@ + src@,
{
    let mut i: usize = 0;
    while i < src.len()
        invariant
            i <= src@.len(),
            out@ == old(out)@ + src@.take(i as int),
        decreases src@.len() - i,
    {
        out.push(src[i]);
        proof {
            assert(src@.take((i + 1) as int) =~= src@.take(i as int).push(src@[i as int]));
        }
        i = i + 1;
    }
    proof {
        assert(src@.take(src@.len() as int) =~= src@);
    }
}

proof fn lemma_pieces_step(s: Seq<char>, i: int, e: int)
    requires
        fence_from(s, 0) == Some(i),
        0 <= i,
        i + 10 <= s.len(),
        closing_fence(s.subrange(i + 10, s.len() as int)) == Some(e),
        0 <= e,
        e + 3 <= s.len() - (i + 10),
    ensures
        ({
            let after = s.subrange(i + 10, s.len() as int);
            let rest = after.subrange(e + 3, after.len() as int);
            &&& pieces(s) == seq![Piece::Text(s.subrange(0, i)), Piece::Block(after.subrange(0, e))]
                + pieces(rest)
            &&& forall|rs: Seq<Result<Seq<char>, Seq<char>>>|
                rs.len() >= 1 ==> #[trigger] assemble(pieces(s), rs) == s.subrange(0, i) + block_output(
                    after.subrange(0, e),
                    rs[0],
                ) + assemble(pieces(rest), rs.drop_first())
            &&& block_contents(pieces(s)) == seq![after.subrange(0, e)] + block_contents(pieces(rest))
        }),
{
    let after = s.subrange(i + 10, s.len() as int);
    let rest = after.subrange(e + 3, after.len() as int);
    let ps = pieces(s);
    let t = Piece::Text(s.subrange(0, i));
    let b = Piece::Block(after.subrange(0, e));
    assert(ps == seq![t, b] + pieces(rest));
    assert(ps.drop_first() =~= seq![b] + pieces(rest));
    assert((seq![b] + pieces(rest)).drop_first() =~= pieces(rest));
    assert forall|rs: Seq<Result<Seq<char>, Seq<char>>>| rs.len() >= 1 implies #[trigger] assemble(
        ps,
        rs,
    ) == s.subrange(0, i) + block_output(after.subrange(0, e), rs[0]) + assemble(
        pieces(rest),
        rs.drop_first(),
    ) by {
        assert(assemble(ps, rs) == s.subrange(0, i) + assemble(ps.drop_first(), rs));
        assert(assemble(seq![b] + pieces(rest), rs) == block_output(after.subrange(0, e), rs[0])
            + assemble(pieces(rest), rs.drop_first()));
    }
    assert(block_contents(ps) == block_contents(ps.drop_first()));
    assert(block_contents(seq![b] + pieces(rest)) == seq![after.subrange(0, e)] + block_contents(
        pieces(rest),
    ));
}

proof fn lemma_pieces_last(s: Seq<char>)
    requires
        fence_from(s, 0) is None || (fence_from(s, 0) matches Some(i) && closing_fence(
            s.subrange(i + 10, s.len() as int),
        ) is None),
    ensures
        pieces(s) == seq![Piece::Text(s)],
        forall|rs: Seq<Result<Seq<char>, Seq<char>>>| #[trigger] assemble(pieces(s), rs) == s,
        block_contents(pieces(s)).len() == 0,
{
    let ps = pieces(s);
    assert(ps.drop_first() =~= Seq::<Piece>::empty());
    assert forall|rs: Seq<Result<Seq<char>, Seq<char>>>| #[trigger] assemble(ps, rs) == s by {
        assert(assemble(ps, rs) == s + assemble(ps.drop_first(), rs));
        assert(s + Seq::<char>::empty() =~= s);
    }
    assert(block_contents(ps) == block_contents(ps.drop_first()));
}

/// The contents of the obgraph blocks of `markdown`, in order.
pub fn obgraph_blocks(markdown: &str) -> (r: Vec<String>)
    ensures
        r@.map_values(|b: String| b@) == block_contents(pieces(markdown@)),
{
    let mut rest = chars_of(markdown);
    let mut out: Vec<String> = Vec::new();
    loop
        invariant
            block_contents(pieces(markdown@)) == out@.map_values(|b: String| b@) + block_contents(
                pieces(rest@),
            ),
        decreases rest@.len(),
    {
        match find_obgraph_fence(&rest) {
            None => {
                proof {
                    lemma_pieces_last(rest@);
                    assert(out@.map_values(|b: String| b@) + Seq::<Seq<char>>::empty() =~= out@.map_values(
                        |b: String| b@,
                    ));
                }
                return out;
            },
            Some(i) => {
                let rest_len = rest.len();
                let after = slice_of(&rest, i + 10, rest_len);
                match find_closing_fence(&after) {
                    None => {
                        proof {
                            lemma_pieces_last(rest@);
                            assert(out@.map_values(|b: String| b@) + Seq::<Seq<char>>::empty()
                                =~= out@.map_values(|b: String| b@));
                        }
                        return out;
                    },
                    Some(e) => {
                        proof {
                            lemma_pieces_step(rest@, i as int, e as int);
                        }
                        let block = slice_of(&after, 0, e);
                        let ghost old_out = out@;
                        out.push(string_of(&block));
                        rest = slice_of(&after, e + 3, after.len());
                        proof {
                            assert(out@.map_values(|b: String| b@) =~= old_out.map_values(
                                |b: String| b@,
                            ).push(block@));
                            assert(old_out.map_values(|b: String| b@).push(block@) + block_contents(
                                pieces(rest@),
                            ) =~= old_out.map_values(|b: String| b@) + (seq![block@]
                                + block_contents(pieces(rest@))));
                        }
                    },
                }
            },
        }
    }
}

/// Replace every ```` ```obgraph ```` block in `markdown`: the `k`-th block
/// by the `k`-th rendering result when that is `Ok`, else by an HTML comment
/// that carries the error, followed by the original fenced block. An
/// opening fence without a closing one is kept as it is.
pub fn process_markdown(markdown: &str, rendered: &Vec<Result<String, String>>) -> (r: String)
    requires
        rendered@.len() == block_contents(pieces(markdown@)).len(),
    ensures
        r@ == assemble(pieces(markdown@), result_views(rendered@)),
{
    let ghost rv = result_views(rendered@);
    let mut rest = chars_of(markdown);
    let mut out: Vec<char> = Vec::new();
    let mut k: usize = 0;
    let nr = rendered.len();
    proof {
        assert(rv.skip(0) =~= rv);
        assert(out@ + assemble(pieces(rest@), rv) =~= assemble(pieces(rest@), rv));
    }
    loop
        invariant
            rv == result_views(rendered@),
            rv.len() == rendered@.len(),
            nr == rendered@.len(),
            k <= rendered@.len(),
            rendered@.len() == k + block_contents(pieces(rest@)).len(),
            assemble(pieces(markdown@), rv) == out@ + assemble(pieces(rest@), rv.skip(k as int)),
        decreases rest@.len(),
    {
        match find_obgraph_fence(&rest) {
            None => {
                proof {
                    lemma_pieces_last(rest@);
                }
                append_all(&mut out, &rest);
                return string_of(&out);
            },
            Some(i) => {
                let rest_len = rest.len();
                let after = slice_of(&rest, i + 10, rest_len);
                match find_closing_fence(&after) {
                    None => {
                        proof {
                            lemma_pieces_last(rest@);
                        }
                        append_all(&mut out, &rest);
                        return string_of(&out);
                    },
                    Some(e) => {
                        proof {
                            lemma_pieces_step(rest@, i as int, e as int);
                            assert(rv.skip(k as int)[0] == rv[k as int]);
                            assert(rv.skip(k as int).drop_first() =~= rv.skip(k + 1));
                        }
                        let ghost out0 = out@;
                        let before = slice_of(&rest, 0, i);
                        append_all(&mut out, &before);
                        let block = slice_of(&after, 0, e);
                        match &rendered[k] {
                            Ok(svg) => {
                                let svg_chars = chars_of(svg.as_str());
                                append_all(&mut out, &svg_chars);
                            },
                            Err(msg) => {
                                let open = chars_of("<!-- mdbook-obgraph error: ");
                                append_all(&mut out, &open);
                                let msg_chars = chars_of(msg.as_str());
                                append_all(&mut out, &msg_chars);
                                let mid = chars_of(" -->\n```obgraph");
                                append_all(&mut out, &mid);
                                append_all(&mut out, &block);
                                let close = chars_of("```");
                                append_all(&mut out, &close);
                            },
                        }
                        proof {
                            assert(rv[k as int] == result_view(rendered@[k as int]));
                            assert(out@ =~= out0 + before@ + block_output(block@, rv[k as int]));
                        }
                        k = k + 1;
                        rest = slice_of(&after, e + 3, after.len());
                    },
                }
            },
        }
    }
}

proof fn lemma_fence_from_sound(s: Seq<char>, j: int)
    ensures
        fence_from(s, j) matches Some(i) ==> j <= i && is_fence_at(s, i),
    decreases s.len() - j,
{
    if j >= 0 && j + 10 <= s.len() && !is_fence_at(s, j) {
        lemma_fence_from_sound(s, j + 1);
    }
}

proof fn lemma_closing_from_sound(s: Seq<char>, l: int)
    ensures
        closing_from(s, l) matches Some(m) ==> l <= m && is_closing_at(s, m),
    decreases s.len() - l,
{
    if l >= 1 && l + 3 <= s.len() && !is_closing_at(s, l) {
        lemma_closing_from_sound(s, l + 1);
    }
}

/// Each block rendered as its own fenced source.
pub open spec fn source_renderings(ps: Seq<Piece>) -> Seq<Result<Seq<char>, Seq<char>>> {
    block_contents(ps).map_values(|b: Seq<char>| Ok(fence_marker() + b + closing_marker()))
}

/// Splitting markdown into pieces loses nothing: putting each block back
/// as its own fenced source gives the markdown back.
pub proof fn lemma_reassemble(s: Seq<char>)
    ensures
        assemble(pieces(s), source_renderings(pieces(s))) == s,
    decreases s.len(),
{
    let rs = source_renderings(pieces(s));
    match fence_from(s, 0) {
        None => {
            lemma_pieces_last(s);
        },
        Some(i) => {
            lemma_fence_from_sound(s, 0);
            let after = s.subrange(i + 10, s.len() as int);
            match closing_fence(after) {
                None => {
                    lemma_pieces_last(s);
                },
                Some(e) => {
                    let nl = newline_from(after, 0).unwrap();
                    lemma_closing_from_sound(after, nl + 1);
                    assert(0 <= nl) by {
                        lemma_newline_from_bound(after, 0);
                    }
                    lemma_pieces_step(s, i, e);
                    let rest = after.subrange(e + 3, after.len() as int);
                    lemma_reassemble(rest);
                    let b = after.subrange(0, e);
                    assert(block_contents(pieces(s)) == seq![b] + block_contents(pieces(rest)));
                    assert(rs.drop_first() =~= source_renderings(pieces(rest)));
                    assert(rs[0] == Ok::<Seq<char>, Seq<char>>(fence_marker() + b + closing_marker()));
                    assert(s.subrange(i, i + 10) == fence_marker());
                    assert(after.subrange(e, e + 3) == closing_marker());
                    assert(s =~= s.subrange(0, i) + (fence_marker() + b + closing_marker()) + rest);
                }
            }
        },
    }
}

proof fn lemma_newline_from_bound(s: Seq<char>, k: int)
    ensures
        newline_from(s, k) matches Some(n) ==> k <= n < s.len(),
    decreases s.len() - k,
{
    if k >= 0 && k < s.len() && s[k] != '\n' {
        lemma_newline_from_bound(s, k + 1);
    }
}

/// `s` has no backtick.
pub open spec fn no_backtick(s: Seq<char>) -> bool {
    forall|i: int| 0 <= i < s.len() ==> s[i] != '`'
}

proof fn lemma_fence_from_first(s: Seq<char>, f: int, i: int)
    requires
        0 <= i <= f,
        is_fence_at(s, f),
        forall|k: int| 0 <= k < f ==> s[k] != '`',
    ensures
        fence_from(s, i) == Some(f),
    decreases f - i,
{
    if i < f {
        assert(!marker_at(s, i, fence_marker())) by {
            if marker_at(s, i, fence_marker()) {
                assert(s.subrange(i, i + 10)[0] == s[i]);
            }
        }
        lemma_fence_from_first(s, f, i + 1);
    }
}

proof fn lemma_closing_from_first(s: Seq<char>, c: int, l: int)
    requires
        1 <= l <= c,
        is_closing_at(s, c),
        forall|k: int| 0 <= k < c ==> s[k] != '`',
    ensures
        closing_from(s, l) == Some(c),
    decreases c - l,
{
    if l < c {
        assert(!marker_at(s, l, closing_marker())) by {
            if marker_at(s, l, closing_marker()) {
                assert(s.subrange(l, l + 3)[0] == s[l]);
            }
        }
        lemma_closing_from_first(s, c, l + 1);
    }
}

/// A chapter that ends with an obgraph block closed by the very last line,
/// with no line break after it, has that block replaced: text `t` with no
/// backtick, then ```` ```obgraph ```` on its own line, a body `x` with no
/// backtick, and ```` ``` ```` at the end. The block is found, and its
/// rendering takes its place.
pub proof fn lemma_block_closed_at_end(t: Seq<char>, x: Seq<char>, r: Seq<char>)
    requires
        no_backtick(t),
        no_backtick(x),
    ensures
        ({
            let md = t + seq!['\n'] + fence_marker() + seq!['\n'] + x + seq!['\n'] + closing_marker();
            &&& block_contents(pieces(md)) == seq![seq!['\n'] + x + seq!['\n']]
            &&& assemble(pieces(md), seq![Ok::<Seq<char>, Seq<char>>(r)]) == t + seq!['\n'] + r
        }),
{
    let md = t + seq!['\n'] + fence_marker() + seq!['\n'] + x + seq!['\n'] + closing_marker();
    let f: int = t.len() as int + 1;
    assert(md.subrange(f as int, f + 10) =~= fence_marker());
    assert(md[f + 10] == '\n');
    assert(blank_to_line_end(md, f + 10));
    assert(md[f - 1] == '\n');
    assert(spaces_from_line_start(md, f as int));
    assert forall|k: int| 0 <= k < f implies md[k] != '`' by {
        if k < t.len() {
            assert(md[k] == t[k]);
        }
    }
    lemma_fence_from_first(md, f as int, 0);
    let after = md.subrange(f + 10, md.len() as int);
    let c: int = x.len() as int + 2;
    assert(after =~= seq!['\n'] + x + seq!['\n'] + closing_marker());
    assert(after.len() == c + 3);
    assert(newline_from(after, 0) == Some(0int));
    assert(after.subrange(c as int, c + 3) =~= closing_marker());
    assert(after[c - 1] == '\n');
    assert(blank_from_line_start(after, c as int));
    assert(blank_to_line_end(after, c + 3));
    assert forall|k: int| 0 <= k < c implies after[k] != '`' by {
        if 1 <= k < c - 1 {
            assert(after[k] == x[k - 1]);
        }
    }
    lemma_closing_from_first(after, c as int, 1);
    assert(closing_fence(after) == Some(c as int));
    let rest = after.subrange(c + 3, after.len() as int);
    assert(rest =~= Seq::<char>::empty());
    assert(fence_from(rest, 0) is None);
    lemma_pieces_last(rest);
    lemma_pieces_step(md, f as int, c as int);
    assert(md.subrange(0, f as int) =~= t + seq!['\n']);
    assert(after.subrange(0, c as int) =~= seq!['\n'] + x + seq!['\n']);
    let rs = seq![Ok::<Seq<char>, Seq<char>>(r)];
    assert(rs.drop_first() =~= Seq::<Result<Seq<char>, Seq<char>>>::empty());
    assert(block_contents(pieces(md)) =~= seq![seq!['\n'] + x + seq!['\n']]);
    assert(t + seq!['\n'] + r + Seq::<char>::empty() =~= t + seq!['\n'] + r);
}

} // verus!
