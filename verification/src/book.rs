//! The book that mdbook hands a preprocessor, as a JSON tree, and the walk
//! that finds the content of every chapter.
//!
//! An object with a `Chapter` entry is a chapter item: its chapter's
//! `content` text is the chapter content, and its `sub_items` are walked in
//! turn; none of the item's other entries is visited. Any other object is
//! walked entry by entry, an array item by item.
use vstd::prelude::*;

use crate::markdown::chars_of;

verus! {

/// A JSON value. Numbers keep their text.
#[derive(Debug)]
pub enum BookValue {
    Null,
    Bool(bool),
    Number(String),
    Str(String),
    Array(Vec<BookValue>),
    Object(Vec<BookEntry>),
}

/// One entry of a JSON object.
#[derive(Debug)]
pub struct BookEntry {
    pub key: String,
    pub value: BookValue,
}

/// Mathematical value of a JSON value.
pub enum BookView {
    Null,
    Bool(bool),
    Number(Seq<char>),
    Str(Seq<char>),
    Array(Seq<BookView>),
    Object(Seq<(Seq<char>, BookView)>),
}

pub open spec fn book_view(v: BookValue) -> BookView
    decreases v, 0nat,
{
    match v {
        BookValue::Null => BookView::Null,
        BookValue::Bool(b) => BookView::Bool(b),
        BookValue::Number(n) => BookView::Number(n@),
        BookValue::Str(s) => BookView::Str(s@),
        BookValue::Array(items) => BookView::Array(items_view(items@, items@.len())),
        BookValue::Object(entries) => BookView::Object(entries_view(entries@, entries@.len())),
    }
}

pub open spec fn items_view(items: Seq<BookValue>, n: nat) -> Seq<BookView>
    decreases items, n,
{
    if n == 0 || n > items.len() {
        Seq::empty()
    } else {
        items_view(items, (n - 1) as nat).push(book_view(items[n - 1]))
    }
}

pub open spec fn entries_view(entries: Seq<BookEntry>, n: nat) -> Seq<(Seq<char>, BookView)>
    decreases entries, n,
{
    if n == 0 || n > entries.len() {
        Seq::empty()
    } else {
        entries_view(entries, (n - 1) as nat).push(
            (entries[n - 1].key@, book_view(entries[n - 1].value)),
        )
    }
}

pub proof fn lemma_items_view(items: Seq<BookValue>, n: nat)
    requires
        n <= items.len(),
    ensures
        items_view(items, n).len() == n,
        forall|i: int| 0 <= i < n ==> #[trigger] items_view(items, n)[i] == book_view(items[i]),
    decreases n,
{
    if n > 0 {
        lemma_items_view(items, (n - 1) as nat);
    }
}

pub proof fn lemma_entries_view(entries: Seq<BookEntry>, n: nat)
    requires
        n <= entries.len(),
    ensures
        entries_view(entries, n).len() == n,
        forall|i: int|
            0 <= i < n ==> #[trigger] entries_view(entries, n)[i] == (
                entries[i].key@,
                book_view(entries[i].value),
            ),
    decreases n,
{
    if n > 0 {
        lemma_entries_view(entries, (n - 1) as nat);
    }
}

/// The first of the first `n` entries with key `key`.
pub open spec fn entry_index(entries: Seq<(Seq<char>, BookView)>, key: Seq<char>, n: nat) -> Option<nat>
    decreases n,
{
    if n == 0 || n > entries.len() {
        None
    } else {
        match entry_index(entries, key, (n - 1) as nat) {
            Some(k) => Some(k),
            None => if entries[n - 1].0 == key {
                Some((n - 1) as nat)
            } else {
                None
            },
        }
    }
}

pub open spec fn chapter_key() -> Seq<char> {
    seq!['C', 'h', 'a', 'p', 't', 'e', 'r']
}

pub open spec fn content_key() -> Seq<char> {
    seq!['c', 'o', 'n', 't', 'e', 'n', 't']
}

pub open spec fn sub_items_key() -> Seq<char> {
    seq!['s', 'u', 'b', '_', 'i', 't', 'e', 'm', 's']
}

/// The chapter contents found in `v`, in walk order.
pub open spec fn chapters(v: BookView) -> Seq<Seq<char>>
    decreases v, 0nat,
{
    match v {
        BookView::Array(items) => items_chapters(items, items.len()),
        BookView::Object(entries) => match entry_index(entries, chapter_key(), entries.len()) {
            Some(k) => if k < entries.len() {
                chapter_contents_of(entries[k as int].1)
            } else {
                Seq::empty()
            },
            None => entries_chapters(entries, entries.len()),
        },
        _ => Seq::empty(),
    }
}

/// The contents found under a chapter: its own text content, then those of
/// its sub-items.
pub open spec fn chapter_contents_of(ch: BookView) -> Seq<Seq<char>>
    decreases ch, 1nat,
{
    match ch {
        BookView::Object(entries) => {
            let own = match entry_index(entries, content_key(), entries.len()) {
                Some(k) => if k < entries.len() {
                    match entries[k as int].1 {
                        BookView::Str(s) => seq![s],
                        _ => Seq::empty(),
                    }
                } else {
                    Seq::empty()
                },
                None => Seq::empty(),
            };
            let sub = match entry_index(entries, sub_items_key(), entries.len()) {
                Some(k) => if k < entries.len() {
                    chapters(entries[k as int].1)
                } else {
                    Seq::empty()
                },
                None => Seq::empty(),
            };
            own + sub
        },
        _ => Seq::empty(),
    }
}

pub open spec fn items_chapters(items: Seq<BookView>, n: nat) -> Seq<Seq<char>>
    decreases items, n,
{
    if n == 0 || n > items.len() {
        Seq::empty()
    } else {
        items_chapters(items, (n - 1) as nat) + chapters(items[n - 1])
    }
}

pub open spec fn entries_chapters(entries: Seq<(Seq<char>, BookView)>, n: nat) -> Seq<Seq<char>>
    decreases entries, n,
{
    if n == 0 || n > entries.len() {
        Seq::empty()
    } else {
        entries_chapters(entries, (n - 1) as nat) + chapters(entries[n - 1].1)
    }
}

/// `v` with its chapter contents, in walk order, replaced by those of
/// `texts` from position `pos` on; and the position after the last one used.
pub open spec fn fill(v: BookView, texts: Seq<Seq<char>>, pos: int) -> (BookView, int)
    decreases v, 0nat,
{
    match v {
        BookView::Array(items) => {
            let (ni, p) = fill_items(items, texts, pos, items.len());
            (BookView::Array(ni), p)
        },
        BookView::Object(entries) => match entry_index(entries, chapter_key(), entries.len()) {
            Some(k) => if k < entries.len() {
                let (nc, p) = fill_chapter(entries[k as int].1, texts, pos);
                (BookView::Object(entries.update(k as int, (entries[k as int].0, nc))), p)
            } else {
                (v, pos)
            },
            None => {
                let (ne, p) = fill_entries(entries, texts, pos, entries.len());
                (BookView::Object(ne), p)
            },
        },
        _ => (v, pos),
    }
}

/// Where a chapter's own content is, when it is text.
pub open spec fn content_index(entries: Seq<(Seq<char>, BookView)>) -> Option<nat> {
    match entry_index(entries, content_key(), entries.len()) {
        Some(k) => if k < entries.len() && entries[k as int].1 is Str {
            Some(k)
        } else {
            None
        },
        None => None,
    }
}

pub open spec fn fill_chapter(ch: BookView, texts: Seq<Seq<char>>, pos: int) -> (BookView, int)
    decreases ch, 1nat,
{
    match ch {
        BookView::Object(entries) => {
            let (e1, p1) = match content_index(entries) {
                Some(k) => (entries.update(k as int, (entries[k as int].0, BookView::Str(texts[pos]))), pos + 1),
                None => (entries, pos),
            };
            match entry_index(entries, sub_items_key(), entries.len()) {
                Some(j) => if j < entries.len() {
                    let (ns, p2) = fill(entries[j as int].1, texts, p1);
                    (BookView::Object(e1.update(j as int, (entries[j as int].0, ns))), p2)
                } else {
                    (BookView::Object(e1), p1)
                },
                None => (BookView::Object(e1), p1),
            }
        },
        _ => (ch, pos),
    }
}

pub open spec fn fill_items(items: Seq<BookView>, texts: Seq<Seq<char>>, pos: int, n: nat) -> (Seq<BookView>, int)
    decreases items, n,
{
    if n == 0 || n > items.len() {
        (Seq::empty(), pos)
    } else {
        let (prev, p) = fill_items(items, texts, pos, (n - 1) as nat);
        let (x, p2) = fill(items[n - 1], texts, p);
        (prev.push(x), p2)
    }
}

pub open spec fn fill_entries(entries: Seq<(Seq<char>, BookView)>, texts: Seq<Seq<char>>, pos: int, n: nat) -> (Seq<(Seq<char>, BookView)>, int)
    decreases entries, n,
{
    if n == 0 || n > entries.len() {
        (Seq::empty(), pos)
    } else {
        let (prev, p) = fill_entries(entries, texts, pos, (n - 1) as nat);
        let (x, p2) = fill(entries[n - 1].1, texts, p);
        (prev.push((entries[n - 1].0, x)), p2)
    }
}

// ---------------------------------------------------------------------------
// Lemmas
// ---------------------------------------------------------------------------

/// Filling uses exactly one text per chapter content.
pub proof fn lemma_fill_len(v: BookView, texts: Seq<Seq<char>>, pos: int)
    ensures
        fill(v, texts, pos).1 == pos + chapters(v).len(),
    decreases v, 0nat,
{
    match v {
        BookView::Array(items) => {
            lemma_fill_items_len(items, texts, pos, items.len());
        },
        BookView::Object(entries) => match entry_index(entries, chapter_key(), entries.len()) {
            Some(k) => if k < entries.len() {
                lemma_fill_chapter_len(entries[k as int].1, texts, pos);
            },
            None => {
                lemma_fill_entries_len(entries, texts, pos, entries.len());
            },
        },
        _ => {},
    }
}

pub proof fn lemma_fill_chapter_len(ch: BookView, texts: Seq<Seq<char>>, pos: int)
    ensures
        fill_chapter(ch, texts, pos).1 == pos + chapter_contents_of(ch).len(),
    decreases ch, 1nat,
{
    match ch {
        BookView::Object(entries) => {
            let p1 = match content_index(entries) {
                Some(k) => pos + 1,
                None => pos,
            };
            match entry_index(entries, sub_items_key(), entries.len()) {
                Some(j) => if j < entries.len() {
                    lemma_fill_len(entries[j as int].1, texts, p1);
                },
                None => {},
            }
        },
        _ => {},
    }
}

pub proof fn lemma_fill_items_len(items: Seq<BookView>, texts: Seq<Seq<char>>, pos: int, n: nat)
    ensures
        fill_items(items, texts, pos, n).1 == pos + items_chapters(items, n).len(),
        n <= items.len() ==> fill_items(items, texts, pos, n).0.len() == n,
    decreases items, n,
{
    if n > 0 && n <= items.len() {
        lemma_fill_items_len(items, texts, pos, (n - 1) as nat);
        let p = fill_items(items, texts, pos, (n - 1) as nat).1;
        lemma_fill_len(items[n - 1], texts, p);
    }
}

pub proof fn lemma_fill_entries_len(
    entries: Seq<(Seq<char>, BookView)>,
    texts: Seq<Seq<char>>,
    pos: int,
    n: nat,
)
    ensures
        fill_entries(entries, texts, pos, n).1 == pos + entries_chapters(entries, n).len(),
        n <= entries.len() ==> fill_entries(entries, texts, pos, n).0.len() == n,
    decreases entries, n,
{
    if n > 0 && n <= entries.len() {
        lemma_fill_entries_len(entries, texts, pos, (n - 1) as nat);
        let p = fill_entries(entries, texts, pos, (n - 1) as nat).1;
        lemma_fill_len(entries[n - 1].1, texts, p);
    }
}

// ---------------------------------------------------------------------------
// Reading the chapter contents
// ---------------------------------------------------------------------------

pub open spec fn string_views(s: Seq<String>) -> Seq<Seq<char>> {
    s.map_values(|t: String| t@)
}

fn same_chars(a: &Vec<char>, b: &Vec<char>) -> (r: bool)
    ensures
        r == (a@ == b@),
{
    if a.len() != b.len() {
        return false;
    }
    let mut i: usize = 0;
    while i < a.len()
        invariant
            a@.len() == b@.len(),
            i <= a@.len(),
            forall|k: int| 0 <= k < i ==> a@[k] == b@[k],
        decreases a@.len() - i,
    {
        if a[i] != b[i] {
            return false;
        }
        i = i + 1;
    }
    assert(a@ =~= b@);
    true
}

/// The first entry with key `want`.
fn find_entry(entries: &Vec<BookEntry>, want: &Vec<char>) -> (r: Option<usize>)
    ensures
        r matches Some(k) ==> entry_index(entries_view(entries@, entries@.len()), want@, entries@.len())
            == Some(k as nat) && k < entries@.len(),
        r is None ==> entry_index(entries_view(entries@, entries@.len()), want@, entries@.len()) is None,
{
    let ghost ev = entries_view(entries@, entries@.len());
    proof {
        lemma_entries_view(entries@, entries@.len());
    }
    let mut i: usize = 0;
    while i < entries.len()
        invariant
            ev == entries_view(entries@, entries@.len()),
            ev.len() == entries@.len(),
            forall|k: int| 0 <= k < entries@.len() ==> #[trigger] ev[k] == (entries@[k].key@, book_view(entries@[k].value)),
            i <= entries@.len(),
            entry_index(ev, want@, i as nat) is None,
        decreases entries@.len() - i,
    {
        let kc = chars_of(entries[i].key.as_str());
        if same_chars(&kc, want) {
            proof {
                assert(ev[i as int].0 == want@);
                lemma_entry_index_stable(ev, want@, (i + 1) as nat, ev.len());
            }
            return Some(i);
        }
        proof {
            assert(ev[i as int].0 != want@);
        }
        i = i + 1;
    }
    None
}

proof fn lemma_entry_index_stable(entries: Seq<(Seq<char>, BookView)>, key: Seq<char>, m: nat, n: nat)
    requires
        m <= n <= entries.len(),
        entry_index(entries, key, m) is Some,
    ensures
        entry_index(entries, key, n) == entry_index(entries, key, m),
    decreases n,
{
    if n > m {
        lemma_entry_index_stable(entries, key, m, (n - 1) as nat);
    }
}

pub proof fn lemma_entry_index_found(entries: Seq<(Seq<char>, BookView)>, key: Seq<char>, n: nat)
    ensures
        entry_index(entries, key, n) matches Some(k) ==> k < n && n <= entries.len()
            && entries[k as int].0 == key,
    decreases n,
{
    if n > 0 && n <= entries.len() {
        lemma_entry_index_found(entries, key, (n - 1) as nat);
    }
}

fn chapter_key_chars() -> (v: Vec<char>)
    ensures
        v@ == chapter_key(),
{
    let v = vec!['C', 'h', 'a', 'p', 't', 'e', 'r'];
    assert(v@ =~= chapter_key());
    v
}

fn content_key_chars() -> (v: Vec<char>)
    ensures
        v@ == content_key(),
{
    let v = vec!['c', 'o', 'n', 't', 'e', 'n', 't'];
    assert(v@ =~= content_key());
    v
}

fn sub_items_key_chars() -> (v: Vec<char>)
    ensures
        v@ == sub_items_key(),
{
    let v = vec!['s', 'u', 'b', '_', 'i', 't', 'e', 'm', 's'];
    assert(v@ =~= sub_items_key());
    v
}

/// Appends the chapter contents of `v`, in walk order.
fn collect_chapters(v: &BookValue, out: &mut Vec<String>)
    ensures
        string_views(final(out)@) == string_views(old(out)@) + chapters(book_view(*v)),
    decreases v, 0nat,
{
    match v {
        BookValue::Array(items) => {
            let ghost iv = items_view(items@, items@.len());
            proof {
                lemma_items_view(items@, items@.len());
            }
            let ghost start = string_views(out@);
            let mut i: usize = 0;
            while i < items.len()
                invariant
                    *v == BookValue::Array(*items),
                    start == string_views(old(out)@),
                    iv == items_view(items@, items@.len()),
                    iv.len() == items@.len(),
                    forall|k: int| 0 <= k < items@.len() ==> #[trigger] iv[k] == book_view(items@[k]),
                    i <= items@.len(),
                    string_views(out@) == start + items_chapters(iv, i as nat),
                decreases items@.len() - i,
            {
                proof {
                    assert(decreases_to!(*v => (*v)->Array_0));
                    assert((*v)->Array_0 == *items);
                    assert(decreases_to!(*items => items@));
                    assert(decreases_to!(items@ => items@[i as int]));
                }
                collect_chapters(&items[i], out);
                proof {
                    assert(start + items_chapters(iv, (i + 1) as nat) =~= start + items_chapters(iv, i as nat)
                        + chapters(iv[i as int]));
                }
                i = i + 1;
            }
        },
        BookValue::Object(entries) => {
            let ghost ev = entries_view(entries@, entries@.len());
            proof {
                lemma_entries_view(entries@, entries@.len());
            }
            let ck = chapter_key_chars();
            match find_entry(entries, &ck) {
                Some(k) => {
                    proof {
                        assert(decreases_to!(v => *entries));
                        assert(decreases_to!(*entries => entries@));
                        assert(decreases_to!(entries@ => entries@[k as int]));
                        assert(decreases_to!(entries@[k as int] => entries@[k as int].value));
                    }
                    collect_chapter(&entries[k].value, out);
                },
                None => {
                    let ghost start = string_views(out@);
                    let mut i: usize = 0;
                    while i < entries.len()
                        invariant
                            *v == BookValue::Object(*entries),
                            start == string_views(old(out)@),
                            ev == entries_view(entries@, entries@.len()),
                            ev.len() == entries@.len(),
                            forall|k: int|
                                0 <= k < entries@.len() ==> #[trigger] ev[k] == (
                                    entries@[k].key@,
                                    book_view(entries@[k].value),
                                ),
                            i <= entries@.len(),
                            string_views(out@) == start + entries_chapters(ev, i as nat),
                        decreases entries@.len() - i,
                    {
                        proof {
                            assert(decreases_to!(*v => (*v)->Object_0));
                            assert((*v)->Object_0 == *entries);
                            assert(decreases_to!(*entries => entries@));
                            assert(decreases_to!(entries@ => entries@[i as int]));
                            assert(decreases_to!(entries@[i as int] => entries@[i as int].value));
                        }
                        collect_chapters(&entries[i].value, out);
                        proof {
                            assert(start + entries_chapters(ev, (i + 1) as nat) =~= start
                                + entries_chapters(ev, i as nat) + chapters(ev[i as int].1));
                        }
                        i = i + 1;
                    }
                    assert(book_view(*v) == BookView::Object(ev));
                },
            }
        },
        _ => {
            assert(string_views(out@) + Seq::<Seq<char>>::empty() =~= string_views(out@));
        },
    }
}

/// Appends the contents under chapter `ch`: its own, then its sub-items'.
fn collect_chapter(ch: &BookValue, out: &mut Vec<String>)
    ensures
        string_views(final(out)@) == string_views(old(out)@) + chapter_contents_of(book_view(*ch)),
    decreases ch, 1nat,
{
    match ch {
        BookValue::Object(entries) => {
            let ghost ev = entries_view(entries@, entries@.len());
            proof {
                lemma_entries_view(entries@, entries@.len());
            }
            let ghost start = string_views(out@);
            let ck = content_key_chars();
            let ghost own: Seq<Seq<char>> = Seq::empty();
            match find_entry(entries, &ck) {
                Some(k) => {
                    proof {
                        assert(ev[k as int] == (entries@[k as int].key@, book_view(entries@[k as int].value)));
                    }
                    if let BookValue::Str(text) = &entries[k].value {
                        out.push(text.clone());
                        proof {
                            own = seq![text@];
                        }
                    }
                },
                None => {},
            }
            proof {
                let expected_own = match entry_index(ev, content_key(), ev.len()) {
                    Some(k) => if k < ev.len() {
                        match ev[k as int].1 {
                            BookView::Str(s) => seq![s],
                            _ => Seq::empty(),
                        }
                    } else {
                        Seq::empty()
                    },
                    None => Seq::empty(),
                };
                assert(own == expected_own);
                assert(string_views(out@) =~= start + own);
            }
            let sk = sub_items_key_chars();
            match find_entry(entries, &sk) {
                Some(j) => {
                    proof {
                        assert(decreases_to!(ch => *entries));
                        assert(decreases_to!(*entries => entries@));
                        assert(decreases_to!(entries@ => entries@[j as int]));
                        assert(decreases_to!(entries@[j as int] => entries@[j as int].value));
                    }
                    collect_chapters(&entries[j].value, out);
                },
                None => {},
            }
        },
        _ => {
            assert(string_views(out@) + Seq::<Seq<char>>::empty() =~= string_views(out@));
        },
    }
}

/// The content of every chapter of `book`, in walk order.
pub fn chapter_texts(book: &BookValue) -> (r: Vec<String>)
    ensures
        string_views(r@) == chapters(book_view(*book)),
{
    let mut out: Vec<String> = Vec::new();
    collect_chapters(book, &mut out);
    assert(string_views(out@) =~= Seq::<Seq<char>>::empty() + chapters(book_view(*book)));
    out
}

// ---------------------------------------------------------------------------
// Writing the chapter contents
// ---------------------------------------------------------------------------

proof fn lemma_items_chapters_mono(items: Seq<BookView>, m: nat, n: nat)
    requires
        m <= n <= items.len(),
    ensures
        items_chapters(items, m).len() <= items_chapters(items, n).len(),
    decreases n,
{
    if n > m {
        lemma_items_chapters_mono(items, m, (n - 1) as nat);
    }
}

proof fn lemma_entries_chapters_mono(entries: Seq<(Seq<char>, BookView)>, m: nat, n: nat)
    requires
        m <= n <= entries.len(),
    ensures
        entries_chapters(entries, m).len() <= entries_chapters(entries, n).len(),
    decreases n,
{
    if n > m {
        lemma_entries_chapters_mono(entries, m, (n - 1) as nat);
    }
}

/// `v` with its chapter contents replaced by `texts[pos..]`, and the
/// position after the last text used.
fn fill_value(v: BookValue, texts: &Vec<String>, pos: usize) -> (r: (BookValue, usize))
    requires
        pos + chapters(book_view(v)).len() <= texts@.len(),
    ensures
        book_view(r.0) == fill(book_view(v), string_views(texts@), pos as int).0,
        r.1 == fill(book_view(v), string_views(texts@), pos as int).1,
    decreases v, 0nat,
{
    let ghost vv = v;
    let ghost tv = string_views(texts@);
    match v {
        BookValue::Array(items) => {
            let ghost orig = items@;
            let ghost iv = items_view(orig, orig.len());
            proof {
                lemma_items_view(orig, orig.len());
                lemma_fill_items_len(iv, tv, pos as int, orig.len());
                assert(book_view(vv) == BookView::Array(iv));
            }
            let n = items.len();
            let mut rest = items;
            let mut out: Vec<BookValue> = Vec::new();
            let mut p = pos;
            let mut i: usize = 0;
            while i < n
                invariant
                    vv == v,
                    vv == BookValue::Array(vv->Array_0),
                    orig == vv->Array_0@,
                    tv == string_views(texts@),
                    n == orig.len(),
                    iv == items_view(orig, orig.len()),
                    iv.len() == n,
                    forall|k: int| 0 <= k < n ==> #[trigger] iv[k] == book_view(orig[k]),
                    i <= n,
                    rest@ == orig.subrange(i as int, n as int),
                    out@.len() == i,
                    fill_items(iv, tv, pos as int, i as nat).0.len() == i,
                    forall|k: int| 0 <= k < i ==> #[trigger] book_view(out@[k]) == fill_items(
                        iv,
                        tv,
                        pos as int,
                        i as nat,
                    ).0[k],
                    p == fill_items(iv, tv, pos as int, i as nat).1,
                    p == pos + items_chapters(iv, i as nat).len(),
                    pos + items_chapters(iv, n as nat).len() <= texts@.len(),
                decreases n - i,
            {
                let x = rest.remove(0);
                proof {
                    assert(x == orig[i as int]);
                    assert(decreases_to!(vv => vv->Array_0));
                    assert(decreases_to!(vv->Array_0 => vv->Array_0@));
                    assert(decreases_to!(vv->Array_0@ => vv->Array_0@[i as int]));
                    lemma_items_chapters_mono(iv, (i + 1) as nat, n as nat);
                    lemma_fill_items_len(iv, tv, pos as int, (i + 1) as nat);
                    lemma_fill_items_len(iv, tv, pos as int, i as nat);
                }
                let (nx, p2) = fill_value(x, texts, p);
                let ghost prev = fill_items(iv, tv, pos as int, i as nat).0;
                out.push(nx);
                p = p2;
                proof {
                    assert(fill_items(iv, tv, pos as int, (i + 1) as nat).0 == prev.push(
                        fill(iv[i as int], tv, fill_items(iv, tv, pos as int, i as nat).1).0,
                    ));
                    assert forall|k: int| 0 <= k < i + 1 implies #[trigger] book_view(out@[k])
                        == fill_items(iv, tv, pos as int, (i + 1) as nat).0[k] by {
                        if k < i {
                            assert(out@[k] == out@.drop_last()[k]);
                        }
                    }
                    assert(rest@ =~= orig.subrange(i + 1, n as int));
                }
                i = i + 1;
            }
            proof {
                lemma_items_view(out@, n as nat);
                assert(items_view(out@, n as nat) =~= fill_items(iv, tv, pos as int, n as nat).0);
            }
            (BookValue::Array(out), p)
        },
        BookValue::Object(entries) => {
            let ghost orig = entries@;
            let ghost ev = entries_view(orig, orig.len());
            proof {
                lemma_entries_view(orig, orig.len());
                assert(book_view(vv) == BookView::Object(ev));
            }
            let ck = chapter_key_chars();
            let found = find_entry(&entries, &ck);
            let n = entries.len();
            let ghost target: Seq<(Seq<char>, BookView)> = fill(book_view(vv), tv, pos as int).0->Object_0;
            proof {
                match found {
                    Some(k) => {
                        lemma_fill_chapter_len(ev[k as int].1, tv, pos as int);
                        assert(target == ev.update(k as int, (ev[k as int].0, fill_chapter(ev[k as int].1, tv, pos as int).0)));
                    },
                    None => {
                        lemma_fill_entries_len(ev, tv, pos as int, n as nat);
                        assert(target == fill_entries(ev, tv, pos as int, n as nat).0);
                    },
                }
            }
            let mut rest = entries;
            let mut out: Vec<BookEntry> = Vec::new();
            let mut p = pos;
            let mut i: usize = 0;
            while i < n
                invariant
                    vv == v,
                    vv == BookValue::Object(vv->Object_0),
                    orig == vv->Object_0@,
                    tv == string_views(texts@),
                    n == orig.len(),
                    ev == entries_view(orig, orig.len()),
                    ev.len() == n,
                    forall|k: int|
                        0 <= k < n ==> #[trigger] ev[k] == (orig[k].key@, book_view(orig[k].value)),
                    book_view(vv) == BookView::Object(ev),
                    target == fill(book_view(vv), tv, pos as int).0->Object_0,
                    target.len() == n,
                    found matches Some(k) ==> k < n && target == ev.update(k as int, (ev[k as int].0, fill_chapter(ev[k as int].1, tv, pos as int).0))
                        && entry_index(ev, chapter_key(), n as nat) == Some(k as nat)
                        && fill(book_view(vv), tv, pos as int).1 == fill_chapter(ev[k as int].1, tv, pos as int).1
                        && pos + chapter_contents_of(ev[k as int].1).len() <= texts@.len(),
                    found matches Some(k) ==> (i <= k ==> p == pos) && (i > k ==> p == fill_chapter(ev[k as int].1, tv, pos as int).1),
                    found is None ==> target == fill_entries(ev, tv, pos as int, n as nat).0
                        && entry_index(ev, chapter_key(), n as nat) is None
                        && fill(book_view(vv), tv, pos as int).1 == fill_entries(ev, tv, pos as int, n as nat).1
                        && fill_entries(ev, tv, pos as int, i as nat).0.len() == i
                        && (forall|k: int| 0 <= k < i ==> #[trigger] fill_entries(ev, tv, pos as int, i as nat).0[k] == target[k])
                        && p == fill_entries(ev, tv, pos as int, i as nat).1
                        && p == pos + entries_chapters(ev, i as nat).len()
                        && pos + entries_chapters(ev, n as nat).len() <= texts@.len(),
                    i <= n,
                    rest@ == orig.subrange(i as int, n as int),
                    out@.len() == i,
                    forall|k: int|
                        0 <= k < i ==> (#[trigger] out@[k]).key@ == target[k].0 && book_view(out@[k].value) == target[k].1,
                decreases n - i,
            {
                let e = rest.remove(0);
                proof {
                    assert(e == orig[i as int]);
                    assert(decreases_to!(vv => vv->Object_0));
                    assert(decreases_to!(vv->Object_0 => vv->Object_0@));
                    assert(decreases_to!(vv->Object_0@ => vv->Object_0@[i as int]));
                    assert(decreases_to!(vv->Object_0@[i as int] => vv->Object_0@[i as int].value));
                }
                let BookEntry { key, value } = e;
                let ghost prev_p = p;
                let new_value = match found {
                    Some(k) => {
                        if i == k {
                            let (nc, p2) = fill_chapter_value(value, texts, p);
                            p = p2;
                            nc
                        } else {
                            value
                        }
                    },
                    None => {
                        proof {
                            lemma_entries_chapters_mono(ev, (i + 1) as nat, n as nat);
                            lemma_fill_entries_len(ev, tv, pos as int, (i + 1) as nat);
                            lemma_fill_entries_len(ev, tv, pos as int, i as nat);
                        }
                        let (nx, p2) = fill_value(value, texts, p);
                        p = p2;
                        nx
                    },
                };
                proof {
                    if found is None {
                        let prev = fill_entries(ev, tv, pos as int, i as nat).0;
                        assert(fill_entries(ev, tv, pos as int, (i + 1) as nat).0 == prev.push(
                            (ev[i as int].0, fill(ev[i as int].1, tv, prev_p as int).0),
                        ));
                        assert forall|k: int| 0 <= k < i + 1 implies #[trigger] fill_entries(
                            ev,
                            tv,
                            pos as int,
                            (i + 1) as nat,
                        ).0[k] == target[k] by {
                            if k == i {
                                lemma_fill_entries_len(ev, tv, pos as int, n as nat);
                                lemma_fill_entries_prefix(ev, tv, pos as int, (i + 1) as nat, n as nat);
                            }
                        }
                        assert(fill_entries(ev, tv, pos as int, (i + 1) as nat).0[i as int] == target[i as int]);
                    }
                    match found {
                        Some(k) => {
                            if i == k {
                                assert(target[i as int] == (ev[k as int].0, fill_chapter(ev[k as int].1, tv, pos as int).0));
                            } else {
                                assert(target[i as int] == ev[i as int]);
                            }
                        },
                        None => {},
                    }
                    assert(key@ == target[i as int].0 && book_view(new_value) == target[i as int].1);
                }
                out.push(BookEntry { key, value: new_value });
                proof {
                    assert(rest@ =~= orig.subrange(i + 1, n as int));
                    assert forall|k: int| 0 <= k < i + 1 implies (#[trigger] out@[k]).key@ == target[k].0
                        && book_view(out@[k].value) == target[k].1 by {
                        if k < i {
                            assert(out@[k] == out@.drop_last()[k]);
                        }
                    }
                }
                i = i + 1;
            }
            proof {
                lemma_entries_view(out@, n as nat);
                assert(entries_view(out@, n as nat) =~= target);
                if let Some(k) = found {
                    assert(p == fill_chapter(ev[k as int].1, tv, pos as int).1);
                }
            }
            (BookValue::Object(out), p)
        },
        BookValue::Null => (BookValue::Null, pos),
        BookValue::Bool(b) => (BookValue::Bool(b), pos),
        BookValue::Number(x) => (BookValue::Number(x), pos),
        BookValue::Str(x) => (BookValue::Str(x), pos),
    }
}

/// The first `m` of the entries filled with `n` entries are those filled
/// with `m`.
proof fn lemma_fill_entries_prefix(
    entries: Seq<(Seq<char>, BookView)>,
    texts: Seq<Seq<char>>,
    pos: int,
    m: nat,
    n: nat,
)
    requires
        m <= n <= entries.len(),
    ensures
        forall|k: int| 0 <= k < m ==> #[trigger] fill_entries(entries, texts, pos, n).0[k]
            == fill_entries(entries, texts, pos, m).0[k],
    decreases n,
{
    lemma_fill_entries_len(entries, texts, pos, m);
    if n > m {
        lemma_fill_entries_prefix(entries, texts, pos, m, (n - 1) as nat);
        lemma_fill_entries_len(entries, texts, pos, (n - 1) as nat);
    }
}

/// Chapter `ch` with its own content replaced by `texts[pos]` and its
/// sub-items filled from the next text on.
fn fill_chapter_value(ch: BookValue, texts: &Vec<String>, pos: usize) -> (r: (BookValue, usize))
    requires
        pos + chapter_contents_of(book_view(ch)).len() <= texts@.len(),
    ensures
        book_view(r.0) == fill_chapter(book_view(ch), string_views(texts@), pos as int).0,
        r.1 == fill_chapter(book_view(ch), string_views(texts@), pos as int).1,
    decreases ch, 0nat,
{
    let ghost vv = ch;
    let ghost tv = string_views(texts@);
    match ch {
        BookValue::Object(entries) => {
            let ghost orig = entries@;
            let ghost ev = entries_view(orig, orig.len());
            proof {
                lemma_entries_view(orig, orig.len());
                assert(book_view(vv) == BookView::Object(ev));
            }
            let n = entries.len();
            let content_k = content_key_chars();
            let kc = match find_entry(&entries, &content_k) {
                Some(k) => if let BookValue::Str(_) = &entries[k].value {
                    Some(k)
                } else {
                    None
                },
                None => None,
            };
            let sub_k = sub_items_key_chars();
            let js = find_entry(&entries, &sub_k);
            proof {
                lemma_entry_index_found(ev, content_key(), n as nat);
                lemma_entry_index_found(ev, sub_items_key(), n as nat);
                assert(kc matches Some(k) ==> ev[k as int] == (orig[k as int].key@, book_view(orig[k as int].value)));
                assert(match content_index(ev) {
                    Some(k) => kc == Some(k as usize),
                    None => kc is None,
                });
            }
            let total = texts.len();
            proof {
                if let Some(k) = kc {
                    assert(chapter_contents_of(book_view(vv)).len() >= 1);
                    assert(pos < total);
                }
            }
            let p1 = match kc {
                Some(_) => pos + 1,
                None => pos,
            };
            proof {
                if let (Some(k), Some(j)) = (kc, js) {
                    assert(ev[k as int].0 == content_key());
                    assert(ev[j as int].0 == sub_items_key());
                    assert(ev[k as int].0.len() != ev[j as int].0.len());
                }
                if let Some(j) = js {
                    lemma_fill_len(ev[j as int].1, tv, p1 as int);
                }
            }
            let ghost target: Seq<(Seq<char>, BookView)> = fill_chapter(book_view(vv), tv, pos as int).0->Object_0;
            let ghost e1 = match kc {
                Some(k) => ev.update(k as int, (ev[k as int].0, BookView::Str(tv[pos as int]))),
                None => ev,
            };
            let mut rest = entries;
            let mut out: Vec<BookEntry> = Vec::new();
            let mut p = p1;
            let mut i: usize = 0;
            while i < n
                invariant
                    vv == ch,
                    vv == BookValue::Object(vv->Object_0),
                    orig == vv->Object_0@,
                    tv == string_views(texts@),
                    n == orig.len(),
                    ev == entries_view(orig, orig.len()),
                    ev.len() == n,
                    forall|k: int|
                        0 <= k < n ==> #[trigger] ev[k] == (orig[k].key@, book_view(orig[k].value)),
                    book_view(vv) == BookView::Object(ev),
                    kc matches Some(k) ==> k < n && orig[k as int].value is Str && pos < texts@.len(),
                    js matches Some(j) ==> j < n,
                    (kc, js) matches (Some(k), Some(j)) ==> k != j,
                    p1 == if kc is Some { pos + 1 } else { pos as int },
                    e1 == match kc {
                        Some(k) => ev.update(k as int, (ev[k as int].0, BookView::Str(tv[pos as int]))),
                        None => ev,
                    },
                    target == match js {
                        Some(j) => e1.update(j as int, (ev[j as int].0, fill(ev[j as int].1, tv, p1 as int).0)),
                        None => e1,
                    },
                    fill_chapter(book_view(vv), tv, pos as int).1 == match js {
                        Some(j) => fill(ev[j as int].1, tv, p1 as int).1,
                        None => p1 as int,
                    },
                    js matches Some(j) ==> p1 + chapters(ev[j as int].1).len() <= texts@.len(),
                    js matches Some(j) ==> (i <= j ==> p == p1) && (i > j ==> p == fill(ev[j as int].1, tv, p1 as int).1),
                    js is None ==> p == p1,
                    i <= n,
                    rest@ == orig.subrange(i as int, n as int),
                    out@.len() == i,
                    forall|k: int|
                        0 <= k < i ==> (#[trigger] out@[k]).key@ == target[k].0 && book_view(out@[k].value) == target[k].1,
                decreases n - i,
            {
                let e = rest.remove(0);
                proof {
                    assert(e == orig[i as int]);
                    assert(decreases_to!(vv => vv->Object_0));
                    assert(decreases_to!(vv->Object_0 => vv->Object_0@));
                    assert(decreases_to!(vv->Object_0@ => vv->Object_0@[i as int]));
                    assert(decreases_to!(vv->Object_0@[i as int] => vv->Object_0@[i as int].value));
                }
                let BookEntry { key, value } = e;
                let is_content = match kc {
                    Some(k) => k == i,
                    None => false,
                };
                let is_sub = match js {
                    Some(j) => j == i,
                    None => false,
                };
                let new_value = if is_content {
                    BookValue::Str(texts[pos].clone())
                } else if is_sub {
                    let (ns, p2) = fill_value(value, texts, p1);
                    p = p2;
                    ns
                } else {
                    value
                };
                out.push(BookEntry { key, value: new_value });
                proof {
                    assert(rest@ =~= orig.subrange(i + 1, n as int));
                    assert forall|k: int| 0 <= k < i + 1 implies (#[trigger] out@[k]).key@ == target[k].0
                        && book_view(out@[k].value) == target[k].1 by {
                        if k < i {
                            assert(out@[k] == out@.drop_last()[k]);
                        }
                    }
                }
                i = i + 1;
            }
            proof {
                lemma_entries_view(out@, n as nat);
                assert(entries_view(out@, n as nat) =~= target);
            }
            (BookValue::Object(out), p)
        },
        BookValue::Null => (BookValue::Null, pos),
        BookValue::Bool(b) => (BookValue::Bool(b), pos),
        BookValue::Number(x) => (BookValue::Number(x), pos),
        BookValue::Str(x) => (BookValue::Str(x), pos),
        BookValue::Array(items) => (BookValue::Array(items), pos),
    }
}

/// The book of a `[context, book]` payload: its second element, when the
/// payload is an array that has one.
pub fn payload_book(payload: BookValue) -> (r: Option<BookValue>)
    ensures
        match book_view(payload) {
            BookView::Array(items) => if items.len() >= 2 {
                r matches Some(b) && book_view(b) == items[1]
            } else {
                r is None
            },
            _ => r is None,
        },
{
    match payload {
        BookValue::Array(mut items) => {
            proof {
                lemma_items_view(items@, items@.len());
            }
            if items.len() >= 2 {
                Some(items.remove(1))
            } else {
                None
            }
        },
        _ => None,
    }
}

/// `book` with the content of its `k`-th chapter, in walk order, replaced by
/// `texts[k]`.
pub fn with_chapter_texts(book: BookValue, texts: &Vec<String>) -> (r: BookValue)
    requires
        texts@.len() == chapters(book_view(book)).len(),
    ensures
        book_view(r) == fill(book_view(book), string_views(texts@), 0).0,
{
    let (r, _) = fill_value(book, texts, 0);
    r
}

// ---------------------------------------------------------------------------
// What a write gives back
// ---------------------------------------------------------------------------

/// Entries with the same keys find a key at the same place.
proof fn lemma_entry_index_same_keys(
    a: Seq<(Seq<char>, BookView)>,
    b: Seq<(Seq<char>, BookView)>,
    key: Seq<char>,
    n: nat,
)
    requires
        a.len() == b.len(),
        forall|i: int| 0 <= i < a.len() ==> #[trigger] a[i].0 == b[i].0,
    ensures
        entry_index(a, key, n) == entry_index(b, key, n),
    decreases n,
{
    if n > 0 && n <= a.len() {
        lemma_entry_index_same_keys(a, b, key, (n - 1) as nat);
        assert(a[n - 1].0 == b[n - 1].0);
    }
}

proof fn lemma_items_chapters_prefix(a: Seq<BookView>, b: Seq<BookView>, n: nat)
    requires
        n <= a.len(),
        n <= b.len(),
        forall|i: int| 0 <= i < n ==> #[trigger] a[i] == b[i],
    ensures
        items_chapters(a, n) == items_chapters(b, n),
    decreases n,
{
    if n > 0 {
        lemma_items_chapters_prefix(a, b, (n - 1) as nat);
        assert(a[n - 1] == b[n - 1]);
    }
}

proof fn lemma_entries_chapters_prefix(
    a: Seq<(Seq<char>, BookView)>,
    b: Seq<(Seq<char>, BookView)>,
    n: nat,
)
    requires
        n <= a.len(),
        n <= b.len(),
        forall|i: int| 0 <= i < n ==> #[trigger] a[i].1 == b[i].1,
    ensures
        entries_chapters(a, n) == entries_chapters(b, n),
    decreases n,
{
    if n > 0 {
        lemma_entries_chapters_prefix(a, b, (n - 1) as nat);
        assert(a[n - 1].1 == b[n - 1].1);
    }
}

proof fn lemma_fill_entries_keys(
    entries: Seq<(Seq<char>, BookView)>,
    texts: Seq<Seq<char>>,
    pos: int,
    n: nat,
)
    requires
        n <= entries.len(),
    ensures
        fill_entries(entries, texts, pos, n).0.len() == n,
        forall|i: int| 0 <= i < n ==> #[trigger] fill_entries(entries, texts, pos, n).0[i].0 == entries[i].0,
    decreases n,
{
    lemma_fill_entries_len(entries, texts, pos, n);
    if n > 0 {
        lemma_fill_entries_keys(entries, texts, pos, (n - 1) as nat);
    }
}

proof fn lemma_content_and_sub_items_apart(entries: Seq<(Seq<char>, BookView)>)
    ensures
        (entry_index(entries, content_key(), entries.len()), entry_index(entries, sub_items_key(), entries.len()))
            matches (Some(k), Some(j)) ==> k != j && k < entries.len() && j < entries.len(),
{
    lemma_entry_index_found(entries, content_key(), entries.len());
    lemma_entry_index_found(entries, sub_items_key(), entries.len());
    if let (Some(k), Some(j)) = (
        entry_index(entries, content_key(), entries.len()),
        entry_index(entries, sub_items_key(), entries.len()),
    ) {
        assert(entries[k as int].0.len() != entries[j as int].0.len());
    }
}

/// Reading the chapter contents of a filled value gives the texts used.
proof fn lemma_chapters_of_fill(v: BookView, texts: Seq<Seq<char>>, pos: int)
    requires
        0 <= pos,
        pos + chapters(v).len() <= texts.len(),
    ensures
        chapters(fill(v, texts, pos).0) == texts.subrange(pos, pos + chapters(v).len()),
    decreases v, 0nat,
{
    match v {
        BookView::Array(items) => {
            lemma_fill_items_len(items, texts, pos, items.len());
            lemma_items_chapters_of_fill(items, texts, pos, items.len());
        },
        BookView::Object(entries) => match entry_index(entries, chapter_key(), entries.len()) {
            Some(k) => if k < entries.len() {
                let (nc, p) = fill_chapter(entries[k as int].1, texts, pos);
                let ne = entries.update(k as int, (entries[k as int].0, nc));
                lemma_entry_index_same_keys(ne, entries, chapter_key(), entries.len());
                lemma_chapter_contents_of_fill(entries[k as int].1, texts, pos);
            } else {
                assert(texts.subrange(pos, pos) =~= Seq::<Seq<char>>::empty());
            },
            None => {
                let ne = fill_entries(entries, texts, pos, entries.len()).0;
                lemma_fill_entries_keys(entries, texts, pos, entries.len());
                lemma_entry_index_same_keys(ne, entries, chapter_key(), entries.len());
                lemma_entries_chapters_of_fill(entries, texts, pos, entries.len());
            },
        },
        _ => {
            assert(texts.subrange(pos, pos) =~= Seq::<Seq<char>>::empty());
        },
    }
}

proof fn lemma_chapter_contents_of_fill(ch: BookView, texts: Seq<Seq<char>>, pos: int)
    requires
        0 <= pos,
        pos + chapter_contents_of(ch).len() <= texts.len(),
    ensures
        chapter_contents_of(fill_chapter(ch, texts, pos).0) == texts.subrange(
            pos,
            pos + chapter_contents_of(ch).len(),
        ),
    decreases ch, 1nat,
{
    match ch {
        BookView::Object(entries) => {
            lemma_content_and_sub_items_apart(entries);
            lemma_entry_index_found(entries, content_key(), entries.len());
            lemma_entry_index_found(entries, sub_items_key(), entries.len());
            let kc = content_index(entries);
            let (e1, p1) = match kc {
                Some(k) => (entries.update(k as int, (entries[k as int].0, BookView::Str(texts[pos]))), pos + 1),
                None => (entries, pos),
            };
            let js = entry_index(entries, sub_items_key(), entries.len());
            let r = match js {
                Some(j) => if j < entries.len() {
                    e1.update(j as int, (entries[j as int].0, fill(entries[j as int].1, texts, p1).0))
                } else {
                    e1
                },
                None => e1,
            };
            assert(fill_chapter(ch, texts, pos).0 == BookView::Object(r));
            assert forall|i: int| 0 <= i < r.len() implies #[trigger] r[i].0 == entries[i].0 by {}
            lemma_entry_index_same_keys(r, entries, content_key(), entries.len());
            lemma_entry_index_same_keys(r, entries, sub_items_key(), entries.len());
            let own = match entry_index(entries, content_key(), entries.len()) {
                Some(k) => if k < entries.len() {
                    match entries[k as int].1 {
                        BookView::Str(s) => seq![s],
                        _ => Seq::empty(),
                    }
                } else {
                    Seq::empty()
                },
                None => Seq::empty(),
            };
            let own_r: Seq<Seq<char>> = match entry_index(r, content_key(), r.len()) {
                Some(k) => if k < r.len() {
                    match r[k as int].1 {
                        BookView::Str(s) => seq![s],
                        _ => Seq::empty(),
                    }
                } else {
                    Seq::empty()
                },
                None => Seq::empty(),
            };
            assert(own_r =~= texts.subrange(pos, p1));
            assert(p1 == pos + own.len());
            match js {
                Some(j) => {
                    lemma_chapters_of_fill(entries[j as int].1, texts, p1);
                    assert(r[j as int].1 == fill(entries[j as int].1, texts, p1).0);
                },
                None => {},
            }
            assert(chapter_contents_of(BookView::Object(r)) =~= texts.subrange(
                pos,
                pos + chapter_contents_of(ch).len(),
            ));
        },
        _ => {
            assert(texts.subrange(pos, pos) =~= Seq::<Seq<char>>::empty());
        },
    }
}

proof fn lemma_items_chapters_of_fill(items: Seq<BookView>, texts: Seq<Seq<char>>, pos: int, n: nat)
    requires
        n <= items.len(),
        0 <= pos,
        pos + items_chapters(items, n).len() <= texts.len(),
    ensures
        items_chapters(fill_items(items, texts, pos, n).0, n) == texts.subrange(
            pos,
            pos + items_chapters(items, n).len(),
        ),
    decreases items, n,
{
    if n == 0 {
        assert(texts.subrange(pos, pos) =~= Seq::<Seq<char>>::empty());
    } else {
        let (prev, p) = fill_items(items, texts, pos, (n - 1) as nat);
        let x = fill(items[n - 1], texts, p).0;
        lemma_fill_items_len(items, texts, pos, (n - 1) as nat);
        lemma_items_chapters_of_fill(items, texts, pos, (n - 1) as nat);
        lemma_chapters_of_fill(items[n - 1], texts, p);
        lemma_items_chapters_prefix(prev.push(x), prev, (n - 1) as nat);
        assert(prev.push(x)[n - 1] == x);
        assert(items_chapters(prev.push(x), n) =~= texts.subrange(pos, pos + items_chapters(items, n).len()));
    }
}

proof fn lemma_entries_chapters_of_fill(
    entries: Seq<(Seq<char>, BookView)>,
    texts: Seq<Seq<char>>,
    pos: int,
    n: nat,
)
    requires
        n <= entries.len(),
        0 <= pos,
        pos + entries_chapters(entries, n).len() <= texts.len(),
    ensures
        entries_chapters(fill_entries(entries, texts, pos, n).0, n) == texts.subrange(
            pos,
            pos + entries_chapters(entries, n).len(),
        ),
    decreases entries, n,
{
    if n == 0 {
        assert(texts.subrange(pos, pos) =~= Seq::<Seq<char>>::empty());
    } else {
        let (prev, p) = fill_entries(entries, texts, pos, (n - 1) as nat);
        let x = fill(entries[n - 1].1, texts, p).0;
        let next = prev.push((entries[n - 1].0, x));
        lemma_fill_entries_len(entries, texts, pos, (n - 1) as nat);
        lemma_entries_chapters_of_fill(entries, texts, pos, (n - 1) as nat);
        lemma_chapters_of_fill(entries[n - 1].1, texts, p);
        lemma_entries_chapters_prefix(next, prev, (n - 1) as nat);
        assert(next[n - 1].1 == x);
        assert(entries_chapters(next, n) =~= texts.subrange(pos, pos + entries_chapters(entries, n).len()));
    }
}

/// Writing chapter texts into a book and reading them again gives the same
/// texts.
pub proof fn lemma_read_after_write(book: BookView, texts: Seq<Seq<char>>)
    requires
        texts.len() == chapters(book).len(),
    ensures
        chapters(fill(book, texts, 0).0) == texts,
{
    lemma_chapters_of_fill(book, texts, 0);
    assert(texts.subrange(0, texts.len() as int) =~= texts);
}

// ---------------------------------------------------------------------------
// Writing back what was read
// ---------------------------------------------------------------------------

/// `texts` holds `s` from position `pos` on.
pub open spec fn holds_at(texts: Seq<Seq<char>>, pos: int, s: Seq<Seq<char>>) -> bool {
    &&& 0 <= pos
    &&& pos + s.len() <= texts.len()
    &&& texts.subrange(pos, pos + s.len()) == s
}

proof fn lemma_holds_at_split(texts: Seq<Seq<char>>, pos: int, a: Seq<Seq<char>>, b: Seq<Seq<char>>)
    requires
        holds_at(texts, pos, a + b),
    ensures
        holds_at(texts, pos, a),
        holds_at(texts, pos + a.len(), b),
{
    assert(texts.subrange(pos, pos + a.len()) =~= (a + b).subrange(0, a.len() as int));
    assert((a + b).subrange(0, a.len() as int) =~= a);
    assert(texts.subrange(pos + a.len(), pos + a.len() + b.len()) =~= (a + b).subrange(
        a.len() as int,
        (a.len() + b.len()) as int,
    ));
    assert((a + b).subrange(a.len() as int, (a.len() + b.len()) as int) =~= b);
}

/// Filling a value with the texts it already holds leaves it as it was.
proof fn lemma_fill_with_own(v: BookView, texts: Seq<Seq<char>>, pos: int)
    requires
        holds_at(texts, pos, chapters(v)),
    ensures
        fill(v, texts, pos).0 == v,
    decreases v, 0nat,
{
    match v {
        BookView::Array(items) => {
            lemma_fill_items_with_own(items, texts, pos, items.len());
            assert(fill_items(items, texts, pos, items.len()).0 =~= items);
        },
        BookView::Object(entries) => match entry_index(entries, chapter_key(), entries.len()) {
            Some(k) => if k < entries.len() {
                lemma_fill_chapter_with_own(entries[k as int].1, texts, pos);
                assert(entries.update(k as int, (entries[k as int].0, entries[k as int].1)) =~= entries);
            },
            None => {
                lemma_fill_entries_with_own(entries, texts, pos, entries.len());
                assert(fill_entries(entries, texts, pos, entries.len()).0 =~= entries);
            },
        },
        _ => {},
    }
}

proof fn lemma_fill_chapter_with_own(ch: BookView, texts: Seq<Seq<char>>, pos: int)
    requires
        holds_at(texts, pos, chapter_contents_of(ch)),
    ensures
        fill_chapter(ch, texts, pos).0 == ch,
    decreases ch, 1nat,
{
    match ch {
        BookView::Object(entries) => {
            lemma_content_and_sub_items_apart(entries);
            let own: Seq<Seq<char>> = match entry_index(entries, content_key(), entries.len()) {
                Some(k) => if k < entries.len() {
                    match entries[k as int].1 {
                        BookView::Str(s) => seq![s],
                        _ => Seq::empty(),
                    }
                } else {
                    Seq::empty()
                },
                None => Seq::empty(),
            };
            let sub: Seq<Seq<char>> = match entry_index(entries, sub_items_key(), entries.len()) {
                Some(k) => if k < entries.len() {
                    chapters(entries[k as int].1)
                } else {
                    Seq::empty()
                },
                None => Seq::empty(),
            };
            assert(chapter_contents_of(ch) == own + sub);
            lemma_holds_at_split(texts, pos, own, sub);
            let kc = content_index(entries);
            let (e1, p1) = match kc {
                Some(k) => (entries.update(k as int, (entries[k as int].0, BookView::Str(texts[pos]))), pos + 1),
                None => (entries, pos),
            };
            if let Some(k) = kc {
                assert(texts.subrange(pos, pos + 1)[0] == own[0]);
                assert(e1 =~= entries);
            }
            assert(p1 == pos + own.len());
            match entry_index(entries, sub_items_key(), entries.len()) {
                Some(j) => if j < entries.len() {
                    lemma_fill_with_own(entries[j as int].1, texts, p1);
                    assert(e1.update(j as int, (entries[j as int].0, entries[j as int].1)) =~= entries);
                },
                None => {},
            }
        },
        _ => {},
    }
}

proof fn lemma_fill_items_with_own(items: Seq<BookView>, texts: Seq<Seq<char>>, pos: int, n: nat)
    requires
        n <= items.len(),
        holds_at(texts, pos, items_chapters(items, n)),
    ensures
        fill_items(items, texts, pos, n).0 == items.take(n as int),
    decreases items, n,
{
    if n == 0 {
        assert(items.take(0) =~= Seq::<BookView>::empty());
    } else {
        let m = (n - 1) as nat;
        lemma_holds_at_split(texts, pos, items_chapters(items, m), chapters(items[m as int]));
        lemma_fill_items_len(items, texts, pos, m);
        lemma_fill_items_with_own(items, texts, pos, m);
        let p = fill_items(items, texts, pos, m).1;
        lemma_fill_with_own(items[m as int], texts, p);
        assert(items.take(m as int).push(items[m as int]) =~= items.take(n as int));
    }
}

proof fn lemma_fill_entries_with_own(
    entries: Seq<(Seq<char>, BookView)>,
    texts: Seq<Seq<char>>,
    pos: int,
    n: nat,
)
    requires
        n <= entries.len(),
        holds_at(texts, pos, entries_chapters(entries, n)),
    ensures
        fill_entries(entries, texts, pos, n).0 == entries.take(n as int),
    decreases entries, n,
{
    if n == 0 {
        assert(entries.take(0) =~= Seq::<(Seq<char>, BookView)>::empty());
    } else {
        let m = (n - 1) as nat;
        lemma_holds_at_split(texts, pos, entries_chapters(entries, m), chapters(entries[m as int].1));
        lemma_fill_entries_len(entries, texts, pos, m);
        lemma_fill_entries_with_own(entries, texts, pos, m);
        let p = fill_entries(entries, texts, pos, m).1;
        lemma_fill_with_own(entries[m as int].1, texts, p);
        assert(entries.take(m as int).push(entries[m as int]) =~= entries.take(n as int));
    }
}

/// Writing back the chapter texts that were read from a book leaves the book
/// as it was.
pub proof fn lemma_write_back_unchanged(book: BookView)
    ensures
        fill(book, chapters(book), 0).0 == book,
{
    assert(chapters(book).subrange(0, chapters(book).len() as int) =~= chapters(book));
    lemma_fill_with_own(book, chapters(book), 0);
}

} // verus!
