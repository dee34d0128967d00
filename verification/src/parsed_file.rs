//! The record index: the URL-keyed record store, the per-field width
//! histograms behind the running maxima, the reference-counted sorted
//! category set, and the side table of unparseable lines kept for lossless
//! re-rendering.

use vstd::prelude::*;

verus! {

use core::cmp::Ordering;
use crate::bookmark::{Bookmark, BookmarkView, parse_line_spec};
use crate::plain_text::PlainText;
use crate::text::{alpha_le, lines_of, split_lines, str_eq, trim_spec, trim_str};
use crate::{ADD_BOOKMARK, CATEGORY_MAX_LENGTH, SEPARATOR_LINE_SYMBOL, TITLE_MAX_LENGTH};

// ---------------------------------------------------------------------------
// Counting specifications
// ---------------------------------------------------------------------------

/// How many records carry the category `c`.
pub open spec fn cat_count(s: Seq<BookmarkView>, c: Seq<char>) -> nat
    decreases s.len(),
{
    if s.len() == 0 {
        0
    } else {
        cat_count(s.drop_last(), c) + if s.last().category == c {
            1nat
        } else {
            0nat
        }
    }
}

/// How many records have a title of exactly `w` characters.
pub open spec fn width_count(s: Seq<BookmarkView>, w: nat) -> nat
    decreases s.len(),
{
    if s.len() == 0 {
        0
    } else {
        width_count(s.drop_last(), w) + if s.last().title.len() == w {
            1nat
        } else {
            0nat
        }
    }
}

/// How many entries of a name list are the name `n`.
pub open spec fn name_count(s: Seq<String>, n: Seq<char>) -> nat
    decreases s.len(),
{
    if s.len() == 0 {
        0
    } else {
        name_count(s.drop_last(), n) + if s.last()@ == n {
            1nat
        } else {
            0nat
        }
    }
}

/// How many entries of a name list have exactly `w` characters.
pub open spec fn len_count(s: Seq<String>, w: nat) -> nat
    decreases s.len(),
{
    if s.len() == 0 {
        0
    } else {
        len_count(s.drop_last(), w) + if s.last()@.len() == w {
            1nat
        } else {
            0nat
        }
    }
}

/// A count map that mirrors a record sequence exactly: every entry's count
/// is the number of records with its name, and a name has an entry exactly
/// when some record carries it.
pub open spec fn counts_ok(recs: Seq<BookmarkView>, cc: Seq<CategoryCount>) -> bool {
    &&& forall|k: int|
        0 <= k < cc.len() ==> (#[trigger] cc[k].count) as nat == cat_count(recs, cc[k].name@)
    &&& forall|n: Seq<char>|
        #[trigger] cc_count(cc, n) == if cat_count(recs, n) > 0 {
            1nat
        } else {
            0nat
        }
}

/// A width histogram and running maximum that mirror a record sequence: each
/// bucket counts the records of its title width, every width has a bucket,
/// and the maximum is attained.
pub open spec fn widths_ok(recs: Seq<BookmarkView>, hist: Seq<usize>, longest: usize) -> bool {
    &&& hist.len() >= 1
    &&& (longest as int) < hist.len()
    &&& forall|w: int|
        0 < w < hist.len() ==> (#[trigger] hist[w]) as nat == width_count(recs, w as nat)
    &&& forall|i: int| 0 <= i < recs.len() ==> (#[trigger] recs[i].title.len()) < hist.len()
    &&& forall|i: int| 0 <= i < recs.len() ==> (#[trigger] recs[i].title.len()) <= longest
    &&& (longest > 0 ==> width_count(recs, longest as nat) > 0)
}

/// One reference-counted category name.
pub struct CategoryCount {
    pub name: String,
    pub count: usize,
}

/// How many count entries carry the name `n`.
pub open spec fn cc_count(s: Seq<CategoryCount>, n: Seq<char>) -> nat
    decreases s.len(),
{
    if s.len() == 0 {
        0
    } else {
        cc_count(s.drop_last(), n) + if s.last().name@ == n {
            1nat
        } else {
            0nat
        }
    }
}

pub proof fn lemma_cat_count_concat(a: Seq<BookmarkView>, b: Seq<BookmarkView>, c: Seq<char>)
    ensures
        cat_count(a + b, c) == cat_count(a, c) + cat_count(b, c),
    decreases b.len(),
{
    if b.len() == 0 {
        assert(a + b =~= a);
    } else {
        assert((a + b).drop_last() =~= a + b.drop_last());
        assert((a + b).last() == b.last());
        lemma_cat_count_concat(a, b.drop_last(), c);
    }
}

pub proof fn lemma_cat_count_remove(s: Seq<BookmarkView>, c: Seq<char>, i: int)
    requires
        0 <= i < s.len(),
    ensures
        cat_count(s.remove(i), c) == cat_count(s, c) - (if s[i].category == c {
            1int
        } else {
            0int
        }),
{
    let front = s.take(i);
    let mid = seq![s[i]];
    let back = s.skip(i + 1);
    assert(s =~= front + (mid + back));
    assert(s.remove(i) =~= front + back);
    lemma_cat_count_concat(front, mid + back, c);
    lemma_cat_count_concat(mid, back, c);
    lemma_cat_count_concat(front, back, c);
    assert(mid.drop_last() =~= Seq::<BookmarkView>::empty());
    assert(cat_count(Seq::<BookmarkView>::empty(), c) == 0);
    assert(cat_count(mid, c) == if s[i].category == c {
        1nat
    } else {
        0nat
    });
}

pub proof fn lemma_cat_count_at(s: Seq<BookmarkView>, c: Seq<char>, i: int)
    requires
        0 <= i < s.len(),
        s[i].category == c,
    ensures
        cat_count(s, c) >= 1,
    decreases s.len(),
{
    if i == s.len() - 1 {
    } else {
        lemma_cat_count_at(s.drop_last(), c, i);
    }
}

pub proof fn lemma_cat_count_le_len(s: Seq<BookmarkView>, c: Seq<char>)
    ensures
        cat_count(s, c) <= s.len(),
    decreases s.len(),
{
    if s.len() > 0 {
        lemma_cat_count_le_len(s.drop_last(), c);
    }
}

pub proof fn lemma_width_count_concat(a: Seq<BookmarkView>, b: Seq<BookmarkView>, w: nat)
    ensures
        width_count(a + b, w) == width_count(a, w) + width_count(b, w),
    decreases b.len(),
{
    if b.len() == 0 {
        assert(a + b =~= a);
    } else {
        assert((a + b).drop_last() =~= a + b.drop_last());
        assert((a + b).last() == b.last());
        lemma_width_count_concat(a, b.drop_last(), w);
    }
}

pub proof fn lemma_width_count_remove(s: Seq<BookmarkView>, w: nat, i: int)
    requires
        0 <= i < s.len(),
    ensures
        width_count(s.remove(i), w) == width_count(s, w) - (if s[i].title.len() == w {
            1int
        } else {
            0int
        }),
{
    let front = s.take(i);
    let mid = seq![s[i]];
    let back = s.skip(i + 1);
    assert(s =~= front + (mid + back));
    assert(s.remove(i) =~= front + back);
    lemma_width_count_concat(front, mid + back, w);
    lemma_width_count_concat(mid, back, w);
    lemma_width_count_concat(front, back, w);
    assert(mid.drop_last() =~= Seq::<BookmarkView>::empty());
    assert(width_count(Seq::<BookmarkView>::empty(), w) == 0);
    assert(width_count(mid, w) == if s[i].title.len() == w {
        1nat
    } else {
        0nat
    });
}

pub proof fn lemma_width_count_at(s: Seq<BookmarkView>, w: nat, i: int)
    requires
        0 <= i < s.len(),
        s[i].title.len() == w,
    ensures
        width_count(s, w) >= 1,
    decreases s.len(),
{
    if i == s.len() - 1 {
    } else {
        lemma_width_count_at(s.drop_last(), w, i);
    }
}

pub proof fn lemma_width_count_le_len(s: Seq<BookmarkView>, w: nat)
    ensures
        width_count(s, w) <= s.len(),
    decreases s.len(),
{
    if s.len() > 0 {
        lemma_width_count_le_len(s.drop_last(), w);
    }
}

pub proof fn lemma_name_count_concat(a: Seq<String>, b: Seq<String>, n: Seq<char>)
    ensures
        name_count(a + b, n) == name_count(a, n) + name_count(b, n),
    decreases b.len(),
{
    if b.len() == 0 {
        assert(a + b =~= a);
    } else {
        assert((a + b).drop_last() =~= a + b.drop_last());
        assert((a + b).last() == b.last());
        lemma_name_count_concat(a, b.drop_last(), n);
    }
}

pub proof fn lemma_name_count_at(s: Seq<String>, n: Seq<char>, i: int)
    requires
        0 <= i < s.len(),
        s[i]@ == n,
    ensures
        name_count(s, n) >= 1,
    decreases s.len(),
{
    if i == s.len() - 1 {
    } else {
        lemma_name_count_at(s.drop_last(), n, i);
    }
}

pub proof fn lemma_len_count_concat(a: Seq<String>, b: Seq<String>, w: nat)
    ensures
        len_count(a + b, w) == len_count(a, w) + len_count(b, w),
    decreases b.len(),
{
    if b.len() == 0 {
        assert(a + b =~= a);
    } else {
        assert((a + b).drop_last() =~= a + b.drop_last());
        assert((a + b).last() == b.last());
        lemma_len_count_concat(a, b.drop_last(), w);
    }
}

pub proof fn lemma_len_count_at(s: Seq<String>, w: nat, i: int)
    requires
        0 <= i < s.len(),
        s[i]@.len() == w,
    ensures
        len_count(s, w) >= 1,
    decreases s.len(),
{
    if i == s.len() - 1 {
    } else {
        lemma_len_count_at(s.drop_last(), w, i);
    }
}

pub proof fn lemma_len_count_le_len(s: Seq<String>, w: nat)
    ensures
        len_count(s, w) <= s.len(),
    decreases s.len(),
{
    if s.len() > 0 {
        lemma_len_count_le_len(s.drop_last(), w);
    }
}

pub proof fn lemma_cc_count_concat(a: Seq<CategoryCount>, b: Seq<CategoryCount>, n: Seq<char>)
    ensures
        cc_count(a + b, n) == cc_count(a, n) + cc_count(b, n),
    decreases b.len(),
{
    if b.len() == 0 {
        assert(a + b =~= a);
    } else {
        assert((a + b).drop_last() =~= a + b.drop_last());
        assert((a + b).last() == b.last());
        lemma_cc_count_concat(a, b.drop_last(), n);
    }
}

pub proof fn lemma_cc_count_at(s: Seq<CategoryCount>, n: Seq<char>, i: int)
    requires
        0 <= i < s.len(),
        s[i].name@ == n,
    ensures
        cc_count(s, n) >= 1,
    decreases s.len(),
{
    if i == s.len() - 1 {
    } else {
        lemma_cc_count_at(s.drop_last(), n, i);
    }
}

pub proof fn lemma_cc_count_remove(s: Seq<CategoryCount>, n: Seq<char>, i: int)
    requires
        0 <= i < s.len(),
    ensures
        cc_count(s.remove(i), n) == cc_count(s, n) - (if s[i].name@ == n {
            1int
        } else {
            0int
        }),
{
    let front = s.take(i);
    let mid = seq![s[i]];
    let back = s.skip(i + 1);
    assert(s =~= front + (mid + back));
    assert(s.remove(i) =~= front + back);
    lemma_cc_count_concat(front, mid + back, n);
    lemma_cc_count_concat(mid, back, n);
    lemma_cc_count_concat(front, back, n);
    assert(mid.drop_last() =~= Seq::<CategoryCount>::empty());
    assert(cc_count(Seq::<CategoryCount>::empty(), n) == 0);
    assert(cc_count(mid, n) == if s[i].name@ == n {
        1nat
    } else {
        0nat
    });
}

pub proof fn lemma_name_count_remove(s: Seq<String>, n: Seq<char>, i: int)
    requires
        0 <= i < s.len(),
    ensures
        name_count(s.remove(i), n) == name_count(s, n) - (if s[i]@ == n {
            1int
        } else {
            0int
        }),
{
    let front = s.take(i);
    let mid = seq![s[i]];
    let back = s.skip(i + 1);
    assert(s =~= front + (mid + back));
    assert(s.remove(i) =~= front + back);
    lemma_name_count_concat(front, mid + back, n);
    lemma_name_count_concat(mid, back, n);
    lemma_name_count_concat(front, back, n);
    assert(mid.drop_last() =~= Seq::<String>::empty());
    assert(name_count(Seq::<String>::empty(), n) == 0);
    assert(name_count(mid, n) == if s[i]@ == n {
        1nat
    } else {
        0nat
    });
}

pub proof fn lemma_len_count_remove(s: Seq<String>, w: nat, i: int)
    requires
        0 <= i < s.len(),
    ensures
        len_count(s.remove(i), w) == len_count(s, w) - (if s[i]@.len() == w {
            1int
        } else {
            0int
        }),
{
    let front = s.take(i);
    let mid = seq![s[i]];
    let back = s.skip(i + 1);
    assert(s =~= front + (mid + back));
    assert(s.remove(i) =~= front + back);
    lemma_len_count_concat(front, mid + back, w);
    lemma_len_count_concat(mid, back, w);
    lemma_len_count_concat(front, back, w);
    assert(mid.drop_last() =~= Seq::<String>::empty());
    assert(len_count(Seq::<String>::empty(), w) == 0);
    assert(len_count(mid, w) == if s[i]@.len() == w {
        1nat
    } else {
        0nat
    });
}

pub proof fn lemma_name_count_insert(s: Seq<String>, n: Seq<char>, i: int, x: String)
    requires
        0 <= i <= s.len(),
    ensures
        name_count(s.insert(i, x), n) == name_count(s, n) + (if x@ == n {
            1int
        } else {
            0int
        }),
{
    let front = s.take(i);
    let mid = seq![x];
    let back = s.skip(i);
    assert(s =~= front + back);
    assert(s.insert(i, x) =~= front + (mid + back));
    lemma_name_count_concat(front, mid + back, n);
    lemma_name_count_concat(mid, back, n);
    lemma_name_count_concat(front, back, n);
    assert(mid.drop_last() =~= Seq::<String>::empty());
    assert(name_count(Seq::<String>::empty(), n) == 0);
    assert(name_count(mid, n) == if x@ == n {
        1nat
    } else {
        0nat
    });
}

pub proof fn lemma_len_count_insert(s: Seq<String>, w: nat, i: int, x: String)
    requires
        0 <= i <= s.len(),
    ensures
        len_count(s.insert(i, x), w) == len_count(s, w) + (if x@.len() == w {
            1int
        } else {
            0int
        }),
{
    let front = s.take(i);
    let mid = seq![x];
    let back = s.skip(i);
    assert(s =~= front + back);
    assert(s.insert(i, x) =~= front + (mid + back));
    lemma_len_count_concat(front, mid + back, w);
    lemma_len_count_concat(mid, back, w);
    lemma_len_count_concat(front, back, w);
    assert(mid.drop_last() =~= Seq::<String>::empty());
    assert(len_count(Seq::<String>::empty(), w) == 0);
    assert(len_count(mid, w) == if x@.len() == w {
        1nat
    } else {
        0nat
    });
}

// ---------------------------------------------------------------------------
// Record sequences
// ---------------------------------------------------------------------------

/// The first record keyed by `u`, if any.
pub open spec fn url_lookup(s: Seq<BookmarkView>, u: Seq<char>) -> Option<BookmarkView>
    decreases s.len(),
{
    if s.len() == 0 {
        None
    } else if s[0].url == u {
        Some(s[0])
    } else {
        url_lookup(s.drop_first(), u)
    }
}

/// The sequence with the first record keyed by `u` removed.
pub open spec fn remove_url(s: Seq<BookmarkView>, u: Seq<char>) -> Seq<BookmarkView>
    decreases s.len(),
{
    if s.len() == 0 {
        s
    } else if s[0].url == u {
        s.drop_first()
    } else {
        seq![s[0]] + remove_url(s.drop_first(), u)
    }
}

/// Replacing a record: any previous holder of the URL leaves, the new record
/// arrives.
pub open spec fn upsert(s: Seq<BookmarkView>, b: BookmarkView) -> Seq<BookmarkView> {
    remove_url(s, b.url).push(b)
}

/// At the first index that holds the URL, lookup and removal are positional.
pub proof fn lemma_url_found(s: Seq<BookmarkView>, u: Seq<char>, i: int)
    requires
        0 <= i < s.len(),
        s[i].url == u,
        forall|j: int| 0 <= j < i ==> s[j].url != u,
    ensures
        url_lookup(s, u) == Some(s[i]),
        remove_url(s, u) == s.remove(i),
    decreases i,
{
    if i == 0 {
        assert(remove_url(s, u) == s.drop_first());
        assert(s.drop_first() =~= s.remove(0));
    } else {
        assert(s.drop_first() =~= s.skip(1));
        lemma_url_found(s.skip(1), u, i - 1);
        assert(seq![s[0]] + s.skip(1).remove(i - 1) =~= s.remove(i));
    }
}

/// Removing a URL shortens the sequence exactly when the URL was held.
pub proof fn lemma_remove_url_len(s: Seq<BookmarkView>, u: Seq<char>)
    ensures
        remove_url(s, u).len() == if url_lookup(s, u) is Some {
            s.len() - 1
        } else {
            s.len() as int
        },
    decreases s.len(),
{
    if s.len() > 0 && s[0].url != u {
        lemma_remove_url_len(s.drop_first(), u);
    }
}

/// With no holder of the URL, lookup fails and removal does nothing.
pub proof fn lemma_url_absent(s: Seq<BookmarkView>, u: Seq<char>)
    requires
        forall|j: int| 0 <= j < s.len() ==> s[j].url != u,
    ensures
        url_lookup(s, u) is None,
        remove_url(s, u) == s,
    decreases s.len(),
{
    if s.len() > 0 {
        assert(s.drop_first() =~= s.skip(1));
        lemma_url_absent(s.skip(1), u);
        assert(seq![s[0]] + s.skip(1) =~= s);
    }
}

// ---------------------------------------------------------------------------
// The parse fold
// ---------------------------------------------------------------------------

/// Whether a trimmed line is skipped outright: blank, or a pure
/// separator-repeat line; any other unparseable content is preserved.
pub open spec fn line_skipped(tl: Seq<char>) -> bool {
    forall|i: int| 0 <= i < tl.len() ==> tl[i] == SEPARATOR_LINE_SYMBOL
}

/// Whether every character of a trimmed line is the separator symbol, which
/// also covers the blank line.
pub(crate) fn all_separator(s: &str) -> (r: bool)
    ensures
        r == line_skipped(s@),
{
    let n = s.unicode_len();
    let mut k: usize = 0;
    while k < n
        invariant
            n == s@.len(),
            k <= n,
            forall|j: int| 0 <= j < k ==> s@[j] == SEPARATOR_LINE_SYMBOL,
        decreases n - k,
    {
        if s.get_char(k) != SEPARATOR_LINE_SYMBOL {
            return false;
        }
        k = k + 1;
    }
    true
}

/// The records that parsing a sequence of lines leaves in the store, in
/// arrival order; a later record with an already-seen URL replaces the
/// earlier one.
pub open spec fn parse_records(lines: Seq<Seq<char>>) -> Seq<BookmarkView>
    decreases lines.len(),
{
    if lines.len() == 0 {
        Seq::empty()
    } else {
        let prev = parse_records(lines.drop_last());
        let tl = trim_spec(lines.last());
        if line_skipped(tl) {
            prev
        } else {
            match parse_line_spec(tl) {
                Some(bv) => upsert(prev, bv),
                None => prev,
            }
        }
    }
}

/// The preserved invalid lines with their original line numbers, verbatim.
pub open spec fn parse_invalid(lines: Seq<Seq<char>>) -> Seq<(int, Seq<char>)>
    decreases lines.len(),
{
    if lines.len() == 0 {
        Seq::empty()
    } else {
        let prev = parse_invalid(lines.drop_last());
        let tl = trim_spec(lines.last());
        if line_skipped(tl) || parse_line_spec(tl) is Some {
            prev
        } else {
            prev.push((lines.len() - 1, lines.last()))
        }
    }
}

/// The view of the invalid-line table.
pub open spec fn invalid_view(v: Seq<(usize, String)>) -> Seq<(int, Seq<char>)> {
    Seq::new(v.len(), |i: int| (v[i].0 as int, v[i].1@))
}


pub proof fn lemma_cat_count_nonzero(s: Seq<BookmarkView>, c: Seq<char>)
    requires
        cat_count(s, c) > 0,
    ensures
        exists|i: int| 0 <= i < s.len() && s[i].category == c,
    decreases s.len(),
{
    if s.len() > 0 {
        if s.last().category == c {
            assert(s[s.len() - 1].category == c);
        } else {
            lemma_cat_count_nonzero(s.drop_last(), c);
            let i = choose|i: int| 0 <= i < s.drop_last().len() && s.drop_last()[i].category == c;
            assert(s[i].category == c);
        }
    }
}

pub proof fn lemma_width_count_nonzero(s: Seq<BookmarkView>, w: nat)
    requires
        width_count(s, w) > 0,
    ensures
        exists|i: int| 0 <= i < s.len() && s[i].title.len() == w,
    decreases s.len(),
{
    if s.len() > 0 {
        if s.last().title.len() == w {
            assert(s[s.len() - 1].title.len() == w);
        } else {
            lemma_width_count_nonzero(s.drop_last(), w);
            let i = choose|i: int| 0 <= i < s.drop_last().len() && s.drop_last()[i].title.len() == w;
            assert(s[i].title.len() == w);
        }
    }
}

pub proof fn lemma_name_count_nonzero(s: Seq<String>, n: Seq<char>)
    requires
        name_count(s, n) > 0,
    ensures
        exists|i: int| 0 <= i < s.len() && s[i]@ == n,
    decreases s.len(),
{
    if s.len() > 0 {
        if s.last()@ == n {
            assert(s[s.len() - 1]@ == n);
        } else {
            lemma_name_count_nonzero(s.drop_last(), n);
            let i = choose|i: int| 0 <= i < s.drop_last().len() && s.drop_last()[i]@ == n;
            assert(s[i]@ == n);
        }
    }
}

pub proof fn lemma_len_count_nonzero(s: Seq<String>, w: nat)
    requires
        len_count(s, w) > 0,
    ensures
        exists|i: int| 0 <= i < s.len() && s[i]@.len() == w,
    decreases s.len(),
{
    if s.len() > 0 {
        if s.last()@.len() == w {
            assert(s[s.len() - 1]@.len() == w);
        } else {
            lemma_len_count_nonzero(s.drop_last(), w);
            let i = choose|i: int| 0 <= i < s.drop_last().len() && s.drop_last()[i]@.len() == w;
            assert(s[i]@.len() == w);
        }
    }
}

pub proof fn lemma_cc_count_nonzero(s: Seq<CategoryCount>, n: Seq<char>)
    requires
        cc_count(s, n) > 0,
    ensures
        exists|i: int| 0 <= i < s.len() && s[i].name@ == n,
    decreases s.len(),
{
    if s.len() > 0 {
        if s.last().name@ == n {
            assert(s[s.len() - 1].name@ == n);
        } else {
            lemma_cc_count_nonzero(s.drop_last(), n);
            let i = choose|i: int| 0 <= i < s.drop_last().len() && s.drop_last()[i].name@ == n;
            assert(s[i].name@ == n);
        }
    }
}

pub proof fn lemma_cc_count_zero(s: Seq<CategoryCount>, n: Seq<char>)
    requires
        forall|i: int| 0 <= i < s.len() ==> s[i].name@ != n,
    ensures
        cc_count(s, n) == 0,
    decreases s.len(),
{
    if s.len() > 0 {
        lemma_cc_count_zero(s.drop_last(), n);
    }
}

pub proof fn lemma_name_count_zero(s: Seq<String>, n: Seq<char>)
    requires
        forall|i: int| 0 <= i < s.len() ==> s[i]@ != n,
    ensures
        name_count(s, n) == 0,
    decreases s.len(),
{
    if s.len() > 0 {
        lemma_name_count_zero(s.drop_last(), n);
    }
}

/// Distinct names that each have a live record cannot outnumber the records.
pub proof fn lemma_distinct_live_names_le(cats: Seq<String>, store: Seq<BookmarkView>)
    requires
        forall|i: int, j: int| 0 <= i < j < cats.len() ==> cats[i]@ != cats[j]@,
        forall|i: int| 0 <= i < cats.len() ==> cat_count(store, #[trigger] cats[i]@) >= 1,
    ensures
        cats.len() <= store.len(),
    decreases cats.len(),
{
    if cats.len() > 0 {
        let n = cats.last()@;
        assert(cat_count(store, cats[cats.len() - 1]@) >= 1);
        lemma_cat_count_nonzero(store, n);
        let j = choose|j: int| 0 <= j < store.len() && store[j].category == n;
        let store2 = store.remove(j);
        assert forall|i: int| 0 <= i < cats.drop_last().len() implies cat_count(
            store2,
            #[trigger] cats.drop_last()[i]@,
        ) >= 1 by {
            assert(cats.drop_last()[i]@ == cats[i]@);
            assert(cats[i]@ != n);
            lemma_cat_count_remove(store, cats[i]@, j);
        }
        lemma_distinct_live_names_le(cats.drop_last(), store2);
    }
}

// ---------------------------------------------------------------------------
// Width histograms
// ---------------------------------------------------------------------------

/// The histogram widened, if need be, to reach the bucket of width `w`.
pub open spec fn hist_grown(v: Seq<usize>, w: int) -> Seq<usize> {
    if w < v.len() {
        v
    } else {
        v + Seq::new((w + 1 - v.len()) as nat, |i: int| 0usize)
    }
}

/// The first nonzero bucket at or below `i`, or zero.
pub open spec fn scan_down(v: Seq<usize>, i: int) -> int
    decreases i,
{
    if i <= 0 {
        0
    } else if i < v.len() && v[i] > 0 {
        i
    } else {
        scan_down(v, i - 1)
    }
}

pub proof fn lemma_scan_down_props(v: Seq<usize>, i: int)
    ensures
        0 <= scan_down(v, i),
        scan_down(v, i) <= if i >= 0 {
            i
        } else {
            0
        },
        scan_down(v, i) > 0 ==> scan_down(v, i) < v.len() && v[scan_down(v, i)] > 0,
        forall|j: int| scan_down(v, i) < j <= i && j < v.len() ==> v[j] == 0,
    decreases i,
{
    if i > 0 && !(i < v.len() && v[i] > 0) {
        lemma_scan_down_props(v, i - 1);
    }
}

/// A histogram and running maximum after a field of width `w` arrives.
pub open spec fn hist_added(v: Seq<usize>, longest: int, w: int) -> (Seq<usize>, int) {
    if w == 0 {
        (v, longest)
    } else {
        let g = hist_grown(v, w);
        (
            g.update(w, (g[w] + 1) as usize),
            if w > longest {
                w
            } else {
                longest
            },
        )
    }
}

/// A histogram and running maximum after a field of width `w` leaves.
pub open spec fn hist_removed(v: Seq<usize>, longest: int, w: int) -> (Seq<usize>, int) {
    if w == 0 || w >= v.len() {
        (v, longest)
    } else {
        let v2 = v.update(w, (v[w] - 1) as usize);
        (
            v2,
            if v2[w] == 0 && w == longest {
                scan_down(v2, w)
            } else {
                longest
            },
        )
    }
}

// ---------------------------------------------------------------------------
// The index
// ---------------------------------------------------------------------------

pub struct ParsedFile {
    pub bookmarks: Vec<Bookmark>,
    pub titles_char_count: Vec<usize>,
    pub longest_title: usize,
    pub invalid_lines: Vec<(usize, String)>,
    pub categories: Vec<String>,
    pub category_count: Vec<CategoryCount>,
    pub categories_char_count: Vec<usize>,
    pub longest_category: usize,
}

impl ParsedFile {
    /// The live records, as mathematical values.
    pub open spec fn recs(&self) -> Seq<BookmarkView> {
        self.bookmarks.deep_view()
    }

    /// At most one record per URL.
    pub open spec fn urls_unique(&self) -> bool {
        forall|i: int, j: int|
            0 <= i < j < self.recs().len() ==> self.recs()[i].url != self.recs()[j].url
    }

    /// The category set on its own: the sorted list, the count map, and the
    /// width histogram of the listed names agree with one another.
    pub open spec fn catset_wf(&self) -> bool {
        let cats = self.categories@;
        let cc = self.category_count@;
        let hist = self.categories_char_count@;
        &&& forall|i: int, j: int| 0 <= i < j < cats.len() ==> alpha_le(cats[i]@, cats[j]@)
        &&& forall|n: Seq<char>| #[trigger] cc_count(cc, n) <= 1
        &&& forall|n: Seq<char>|
            #[trigger] name_count(cats, n) == if cc_count(cc, n) > 0 {
                1nat
            } else {
                0nat
            }
        &&& forall|k: int| 0 <= k < cc.len() ==> (#[trigger] cc[k].count) >= 1
        &&& hist.len() >= 1
        &&& (self.longest_category as int) < hist.len()
        &&& forall|w: int|
            0 < w < hist.len() ==> (#[trigger] hist[w]) as nat == len_count(cats, w as nat)
        &&& forall|i: int| 0 <= i < cats.len() ==> (#[trigger] cats[i]@.len()) < hist.len()
        &&& forall|i: int|
            0 <= i < cats.len() ==> (#[trigger] cats[i]@.len()) <= self.longest_category
        &&& (self.longest_category > 0 ==> len_count(cats, self.longest_category as nat) > 0)
    }

    /// The count map mirrors the live records exactly.
    pub open spec fn counts_match(&self) -> bool {
        counts_ok(self.recs(), self.category_count@)
    }

    /// The title-width histogram and running maximum mirror the live records.
    pub open spec fn widths_wf(&self) -> bool {
        widths_ok(self.recs(), self.titles_char_count@, self.longest_title)
    }

    /// The index's invariant.
    pub open spec fn wf(&self) -> bool {
        self.urls_unique() && self.catset_wf() && self.counts_match() && self.widths_wf()
    }

    /// Records one more field of this width in a histogram and pushes the
    /// running maximum up if the field beats it.
    pub fn add_char_count(char_count_vec: &mut Vec<usize>, longest: &mut usize, field: &str)
        requires
            0 < field@.len() < old(char_count_vec)@.len() ==> old(
                char_count_vec,
            )@[field@.len() as int] < usize::MAX,
        ensures
            ({
                let (v2, l2) = hist_added(
                    old(char_count_vec)@,
                    *old(longest) as int,
                    field@.len() as int,
                );
                final(char_count_vec)@ == v2 && *final(longest) as int == l2
            }),
    {
        let w = field.unicode_len();
        if w == 0 {
            return ;
        }
        if w > *longest {
            *longest = w;
        }
        let ghost orig = char_count_vec@;
        while char_count_vec.len() <= w
            invariant
                char_count_vec@.len() >= orig.len(),
                orig.len() > w ==> char_count_vec@ == orig,
                orig.len() <= w ==> char_count_vec@.len() <= w + 1,
                forall|j: int| 0 <= j < orig.len() ==> char_count_vec@[j] == orig[j],
                forall|j: int|
                    orig.len() <= j < char_count_vec@.len() ==> char_count_vec@[j] == 0,
            decreases w + 1 - char_count_vec@.len(),
        {
            char_count_vec.push(0);
        }
        proof {
            assert(char_count_vec@ =~= hist_grown(orig, w as int));
        }
        let cur = char_count_vec[w];
        char_count_vec.set(w, cur + 1);
    }

    /// Records that one field of this width left; when the bucket of the
    /// running maximum empties, scans downward for the true new maximum.
    pub fn remove_char_count(char_count_vec: &mut Vec<usize>, longest: &mut usize, field: &str)
        requires
            0 < field@.len() < old(char_count_vec)@.len() ==> old(
                char_count_vec,
            )@[field@.len() as int] > 0,
        ensures
            ({
                let (v2, l2) = hist_removed(
                    old(char_count_vec)@,
                    *old(longest) as int,
                    field@.len() as int,
                );
                final(char_count_vec)@ == v2 && *final(longest) as int == l2
            }),
    {
        let w = field.unicode_len();
        if w == 0 {
            return ;
        }
        if w >= char_count_vec.len() {
            return ;
        }
        let cur = char_count_vec[w];
        char_count_vec.set(w, cur - 1);
        if cur - 1 == 0 && w == *longest {
            let ghost v2 = char_count_vec@;
            let mut i: usize = w;
            while i >= 1
                invariant
                    i <= w,
                    1 <= w,
                    w as int == field@.len(),
                    (w as int) < old(char_count_vec)@.len(),
                    v2 == old(char_count_vec)@.update(
                        w as int,
                        (old(char_count_vec)@[w as int] - 1) as usize,
                    ),
                    v2[w as int] == 0,
                    *longest == *old(longest),
                    w == *old(longest),
                    char_count_vec@ == v2,
                    scan_down(v2, w as int) == scan_down(v2, i as int),
                decreases i,
            {
                if char_count_vec[i] > 0 {
                    *longest = i;
                    return ;
                }
                i = i - 1;
            }
            *longest = 0;
        }
    }

    fn add_titles_char_count(&mut self, title: &str)
        requires
            0 < title@.len() < old(self).titles_char_count@.len() ==> old(self).titles_char_count@[title@.len() as int] < usize::MAX,
        ensures
            ({
                let (v2, l2) = hist_added(
                    old(self).titles_char_count@,
                    old(self).longest_title as int,
                    title@.len() as int,
                );
                final(self).titles_char_count@ == v2 && final(self).longest_title as int == l2
            }),
            final(self).bookmarks == old(self).bookmarks,
            final(self).invalid_lines == old(self).invalid_lines,
            final(self).categories == old(self).categories,
            final(self).category_count == old(self).category_count,
            final(self).categories_char_count == old(self).categories_char_count,
            final(self).longest_category == old(self).longest_category,
    {
        Self::add_char_count(&mut self.titles_char_count, &mut self.longest_title, title)
    }

    fn remove_titles_char_count(&mut self, title: &str)
        requires
            0 < title@.len() < old(self).titles_char_count@.len() ==> old(self).titles_char_count@[title@.len() as int] > 0,
        ensures
            ({
                let (v2, l2) = hist_removed(
                    old(self).titles_char_count@,
                    old(self).longest_title as int,
                    title@.len() as int,
                );
                final(self).titles_char_count@ == v2 && final(self).longest_title as int == l2
            }),
            final(self).bookmarks == old(self).bookmarks,
            final(self).invalid_lines == old(self).invalid_lines,
            final(self).categories == old(self).categories,
            final(self).category_count == old(self).category_count,
            final(self).categories_char_count == old(self).categories_char_count,
            final(self).longest_category == old(self).longest_category,
    {
        Self::remove_char_count(&mut self.titles_char_count, &mut self.longest_title, title)
    }

    fn add_category_char_count(&mut self, category: &str)
        requires
            0 < category@.len() < old(self).categories_char_count@.len() ==> old(self).categories_char_count@[category@.len() as int] < usize::MAX,
        ensures
            ({
                let (v2, l2) = hist_added(
                    old(self).categories_char_count@,
                    old(self).longest_category as int,
                    category@.len() as int,
                );
                final(self).categories_char_count@ == v2 && final(self).longest_category as int
                    == l2
            }),
            final(self).bookmarks == old(self).bookmarks,
            final(self).invalid_lines == old(self).invalid_lines,
            final(self).categories == old(self).categories,
            final(self).category_count == old(self).category_count,
            final(self).titles_char_count == old(self).titles_char_count,
            final(self).longest_title == old(self).longest_title,
    {
        Self::add_char_count(&mut self.categories_char_count, &mut self.longest_category, category)
    }

    fn remove_category_char_count(&mut self, category: &str)
        requires
            0 < category@.len() < old(self).categories_char_count@.len() ==> old(self).categories_char_count@[category@.len() as int] > 0,
        ensures
            ({
                let (v2, l2) = hist_removed(
                    old(self).categories_char_count@,
                    old(self).longest_category as int,
                    category@.len() as int,
                );
                final(self).categories_char_count@ == v2 && final(self).longest_category as int
                    == l2
            }),
            final(self).bookmarks == old(self).bookmarks,
            final(self).invalid_lines == old(self).invalid_lines,
            final(self).categories == old(self).categories,
            final(self).category_count == old(self).category_count,
            final(self).titles_char_count == old(self).titles_char_count,
            final(self).longest_title == old(self).longest_title,
    {
        Self::remove_char_count(
            &mut self.categories_char_count,
            &mut self.longest_category,
            category,
        )
    }
}


pub proof fn lemma_cc_count_update(s: Seq<CategoryCount>, k: int, x: CategoryCount)
    requires
        0 <= k < s.len(),
    ensures
        forall|n: Seq<char>|
            #[trigger] cc_count(s.update(k, x), n) == cc_count(s, n) - (if s[k].name@ == n {
                1int
            } else {
                0int
            }) + (if x.name@ == n {
                1int
            } else {
                0int
            }),
{
    assert forall|n: Seq<char>|
        #[trigger] cc_count(s.update(k, x), n) == cc_count(s, n) - (if s[k].name@ == n {
            1int
        } else {
            0int
        }) + (if x.name@ == n {
            1int
        } else {
            0int
        }) by {
        let front = s.take(k);
        let midold = seq![s[k]];
        let midnew = seq![x];
        let back = s.skip(k + 1);
        assert(s =~= front + (midold + back));
        assert(s.update(k, x) =~= front + (midnew + back));
        lemma_cc_count_concat(front, midold + back, n);
        lemma_cc_count_concat(midold, back, n);
        lemma_cc_count_concat(front, midnew + back, n);
        lemma_cc_count_concat(midnew, back, n);
        assert(midold.drop_last() =~= Seq::<CategoryCount>::empty());
        assert(midnew.drop_last() =~= Seq::<CategoryCount>::empty());
        assert(cc_count(Seq::<CategoryCount>::empty(), n) == 0);
    }
}

impl ParsedFile {
    /// The first count-map entry carrying this name.
    fn find_count_index(cc: &Vec<CategoryCount>, name: &str) -> (r: Option<usize>)
        ensures
            match r {
                Some(k) => k < cc@.len() && cc@[k as int].name@ == name@,
                None => forall|j: int| 0 <= j < cc@.len() ==> cc@[j].name@ != name@,
            },
    {
        let n = cc.len();
        let mut k: usize = 0;
        while k < n
            invariant
                n == cc@.len(),
                k <= n,
                forall|j: int| 0 <= j < k ==> cc@[j].name@ != name@,
            decreases n - k,
        {
            if str_eq(cc[k].name.as_str(), name) {
                return Some(k);
            }
            k = k + 1;
        }
        None
    }

    /// The first position of this name in the sorted list.
    fn find_category_index(cats: &Vec<String>, name: &str) -> (r: Option<usize>)
        ensures
            match r {
                Some(p) => p < cats@.len() && cats@[p as int]@ == name@,
                None => forall|j: int| 0 <= j < cats@.len() ==> cats@[j]@ != name@,
            },
    {
        let n = cats.len();
        let mut k: usize = 0;
        while k < n
            invariant
                n == cats@.len(),
                k <= n,
                forall|j: int| 0 <= j < k ==> cats@[j]@ != name@,
            decreases n - k,
        {
            if str_eq(cats[k].as_str(), name) {
                return Some(k);
            }
            k = k + 1;
        }
        None
    }

    /// A position where the name can enter the sorted list: everything before
    /// sorts no later than the name, everything after no earlier.
    fn sorted_position(cats: &Vec<String>, name: &str) -> (r: usize)
        requires
            forall|i: int, j: int| 0 <= i < j < cats@.len() ==> alpha_le(cats@[i]@, cats@[j]@),
        ensures
            r <= cats@.len(),
            forall|j: int| 0 <= j < r ==> alpha_le(cats@[j]@, name@),
            forall|j: int| r <= j < cats@.len() ==> alpha_le(name@, cats@[j]@),
    {
        let mut lo: usize = 0;
        let mut hi: usize = cats.len();
        while lo < hi
            invariant
                lo <= hi <= cats@.len(),
                forall|i: int, j: int| 0 <= i < j < cats@.len() ==> alpha_le(cats@[i]@, cats@[j]@),
                forall|j: int| 0 <= j < lo ==> alpha_le(cats@[j]@, name@),
                forall|j: int| hi <= j < cats@.len() ==> alpha_le(name@, cats@[j]@),
            decreases hi - lo,
        {
            let mid = lo + (hi - lo) / 2;
            let c = PlainText::alphabetic_sort(cats[mid].as_str(), name);
            if matches!(c, Ordering::Less) {
                proof {
                    assert(alpha_le(cats@[mid as int]@, name@));
                    assert forall|j: int| 0 <= j < mid + 1 implies alpha_le(cats@[j]@, name@) by {
                        if j < mid {
                            crate::text::lemma_alpha_le_trans(
                                cats@[j]@,
                                cats@[mid as int]@,
                                name@,
                            );
                        }
                    }
                }
                lo = mid + 1;
            } else {
                proof {
                    crate::text::lemma_alpha_not_less_le(cats@[mid as int]@, name@);
                    assert forall|j: int| mid <= j < cats@.len() implies alpha_le(
                        name@,
                        cats@[j]@,
                    ) by {
                        if j > mid {
                            crate::text::lemma_alpha_le_trans(
                                name@,
                                cats@[mid as int]@,
                                cats@[j]@,
                            );
                        }
                    }
                }
                hi = mid;
            }
        }
        lo
    }

    /// Raises the name's reference count, creating it at one if absent; a
    /// fresh name also enters the sorted list. True exactly when the list
    /// changed.
    pub fn add_category(&mut self, category: String) -> (added: bool)
        requires
            old(self).catset_wf(),
            old(self).categories@.len() < usize::MAX,
            forall|k: int|
                0 <= k < old(self).category_count@.len() && old(self).category_count@[k].name@
                    == category@ ==> old(self).category_count@[k].count < usize::MAX,
        ensures
            final(self).catset_wf(),
            added == (cc_count(old(self).category_count@, category@) == 0),
            final(self).bookmarks == old(self).bookmarks,
            final(self).invalid_lines == old(self).invalid_lines,
            final(self).titles_char_count == old(self).titles_char_count,
            final(self).longest_title == old(self).longest_title,
            added ==> final(self).category_count@ == old(self).category_count@.push(
                CategoryCount { name: category, count: 1 },
            ),
            added ==> exists|p: int|
                0 <= p <= old(self).categories@.len() && final(self).categories@ == old(self).categories@.insert(p, category),
            added ==> ({
                let (v2, l2) = hist_added(
                    old(self).categories_char_count@,
                    old(self).longest_category as int,
                    category@.len() as int,
                );
                final(self).categories_char_count@ == v2 && final(self).longest_category as int
                    == l2
            }),
            !added ==> final(self).categories@ == old(self).categories@ && final(self).categories_char_count == old(self).categories_char_count && final(self).longest_category == old(self).longest_category && exists|k: int|
                0 <= k < old(self).category_count@.len() && (#[trigger] old(self).category_count@[k]).name@ == category@ && final(self).category_count@ == old(self).category_count@.update(
                    k,
                    CategoryCount {
                        name: old(self).category_count@[k].name,
                        count: (old(self).category_count@[k].count + 1) as usize,
                    },
                ),
    {
        let ghost oldcc = self.category_count@;
        let ghost oldcats = self.categories@;
        match Self::find_count_index(&self.category_count, category.as_str()) {
            Some(k) => {
                proof {
                    lemma_cc_count_at(oldcc, category@, k as int);
                }
                let cur_count = self.category_count[k].count;
                let cur_name = self.category_count[k].name.clone();
                let entry = CategoryCount { name: cur_name, count: cur_count + 1 };
                self.category_count.set(k, entry);
                proof {
                    lemma_cc_count_update(
                        oldcc,
                        k as int,
                        CategoryCount {
                            name: oldcc[k as int].name,
                            count: (oldcc[k as int].count + 1) as usize,
                        },
                    );
                    assert(self.category_count@ =~= oldcc.update(
                        k as int,
                        CategoryCount {
                            name: oldcc[k as int].name,
                            count: (oldcc[k as int].count + 1) as usize,
                        },
                    ));
                    assert forall|n: Seq<char>| #[trigger] cc_count(self.category_count@, n)
                        == cc_count(oldcc, n) by {}
                }
                false
            },
            None => {
                proof {
                    lemma_cc_count_zero(oldcc, category@);
                }
                self.category_count.push(CategoryCount { name: category.clone(), count: 1 });
                let pos = Self::sorted_position(&self.categories, category.as_str());
                proof {
                    let w = category@.len() as int;
                    if 0 < w && w < self.categories_char_count@.len() {
                        lemma_len_count_le_len(oldcats, w as nat);
                    }
                }
                self.add_category_char_count(category.as_str());
                self.categories.insert(pos, category);
                proof {
                    assert(self.categories@ =~= oldcats.insert(
                        pos as int,
                        self.categories@[pos as int],
                    ));
                    lemma_add_category_fresh_wf(*old(self), *self, pos as int);
                }
                true
            },
        }
    }
}

/// After a fresh name enters the count map, the sorted list and the width
/// histogram, the category set is consistent again.
proof fn lemma_add_category_fresh_wf(pre: ParsedFile, post: ParsedFile, pos: int)
    requires
        pre.catset_wf(),
        0 <= pos <= pre.categories@.len(),
        post.categories@.len() == pre.categories@.len() + 1,
        post.categories@ == pre.categories@.insert(pos, post.categories@[pos]),
        cc_count(pre.category_count@, post.categories@[pos]@) == 0,
        pre.categories@.len() < usize::MAX,
        post.category_count@ == pre.category_count@.push(
            CategoryCount { name: post.category_count@[pre.category_count@.len() as int].name, count: 1 },
        ),
        post.category_count@[pre.category_count@.len() as int].name@ == post.categories@[pos]@,
        post.category_count@[pre.category_count@.len() as int].count == 1,
        forall|j: int| 0 <= j < pos ==> alpha_le(pre.categories@[j]@, post.categories@[pos]@),
        forall|j: int|
            pos <= j < pre.categories@.len() ==> alpha_le(
                post.categories@[pos]@,
                pre.categories@[j]@,
            ),
        ({
            let (v2, l2) = hist_added(
                pre.categories_char_count@,
                pre.longest_category as int,
                post.categories@[pos]@.len() as int,
            );
            post.categories_char_count@ == v2 && post.longest_category as int == l2
        }),
    ensures
        post.catset_wf(),
{
    let cats = pre.categories@;
    let cc = pre.category_count@;
    let hist = pre.categories_char_count@;
    let name = post.categories@[pos]@;
    let x = post.categories@[pos];
    let w = name.len() as int;
    let newcats = post.categories@;
    let newcc = post.category_count@;
    let newhist = post.categories_char_count@;
    // sortedness
    assert forall|i: int, j: int| 0 <= i < j < newcats.len() implies alpha_le(
        newcats[i]@,
        newcats[j]@,
    ) by {
        if i < pos && j < pos {
        } else if i < pos && j == pos {
        } else if i < pos && j > pos {
        } else if i == pos {
        } else {
        }
    }
    // count-map multiplicities
    assert forall|n: Seq<char>| #[trigger] cc_count(newcc, n) == cc_count(cc, n) + (if n == name {
        1int
    } else {
        0int
    }) by {
        assert(newcc.drop_last() =~= cc);
    }
    // list multiplicities
    assert forall|n: Seq<char>| #[trigger] name_count(newcats, n) == name_count(cats, n) + (if n
        == name {
        1int
    } else {
        0int
    }) by {
        lemma_name_count_insert(cats, n, pos, x);
    }
    // histogram
    lemma_len_count_le_len(cats, w as nat);
    if w == 0 {
        assert(newhist == hist);
        assert forall|v: int| 0 < v < newhist.len() implies (#[trigger] newhist[v]) as nat
            == len_count(newcats, v as nat) by {
            lemma_len_count_insert(cats, v as nat, pos, x);
            assert(hist[v] as nat == len_count(cats, v as nat));
        }
    } else {
        let g = hist_grown(hist, w);
        assert(g[w] < usize::MAX);
        assert forall|v: int| 0 < v < newhist.len() implies (#[trigger] newhist[v]) as nat
            == len_count(newcats, v as nat) by {
            lemma_len_count_insert(cats, v as nat, pos, x);
            if v != w {
                assert(newhist[v] == g[v]);
                if v < hist.len() {
                    assert(g[v] == hist[v]);
                    assert(hist[v] as nat == len_count(cats, v as nat));
                } else {
                    // a bucket the growth created: nothing of that width exists
                    if len_count(cats, v as nat) > 0 {
                        lemma_len_count_nonzero(cats, v as nat);
                        assert(false);
                    }
                    assert(g[v] == 0);
                }
            } else {
                assert(newhist[w] as int == g[w] + 1);
                if w < hist.len() {
                    assert(g[w] == hist[w]);
                    assert(hist[w] as nat == len_count(cats, w as nat));
                } else {
                    if len_count(cats, w as nat) > 0 {
                        lemma_len_count_nonzero(cats, w as nat);
                        assert(false);
                    }
                    assert(g[w] == 0);
                }
            }
        }
        // the new maximum
        if post.longest_category > 0 {
            lemma_len_count_insert(cats, post.longest_category as nat, pos, x);
        }
    }
    assert(forall|i: int, j: int|
        0 <= i < j < newcats.len() ==> alpha_le(newcats[i]@, newcats[j]@));
    assert(forall|n: Seq<char>| #[trigger] cc_count(newcc, n) <= 1);
    assert(forall|n: Seq<char>|
        #[trigger] name_count(newcats, n) == if cc_count(newcc, n) > 0 {
            1nat
        } else {
            0nat
        });
    assert(forall|k: int| 0 <= k < newcc.len() ==> (#[trigger] newcc[k].count) >= 1);
    assert(newhist.len() >= 1);
    assert((post.longest_category as int) < newhist.len());
    assert(forall|v: int|
        0 < v < newhist.len() ==> (#[trigger] newhist[v]) as nat == len_count(newcats, v as nat));
    assert forall|i: int| 0 <= i < newcats.len() implies (#[trigger] newcats[i]@.len())
        < newhist.len() by {
        if i < pos {
        } else if i == pos {
        } else {
            assert(newcats[i] == cats[i - 1]);
        }
    }
    assert forall|i: int| 0 <= i < newcats.len() implies (#[trigger] newcats[i]@.len())
        <= post.longest_category by {
        if i < pos {
        } else if i == pos {
        } else {
            assert(newcats[i] == cats[i - 1]);
        }
    }
    if post.longest_category > 0 {
        lemma_len_count_insert(cats, post.longest_category as nat, pos, x);
        if w != post.longest_category as int {
            assert(post.longest_category == pre.longest_category);
            assert(len_count(cats, post.longest_category as nat) > 0);
        }
    }
    assert(post.longest_category > 0 ==> len_count(newcats, post.longest_category as nat) > 0);
}


impl ParsedFile {
    /// Lowers the name's reference count; at zero the name leaves the count
    /// map, the sorted list and the width histogram. True exactly when the
    /// list changed.
    pub fn remove_category(&mut self, category: &str) -> (removed: bool)
        requires
            old(self).catset_wf(),
        ensures
            final(self).catset_wf(),
            final(self).bookmarks == old(self).bookmarks,
            final(self).invalid_lines == old(self).invalid_lines,
            final(self).titles_char_count == old(self).titles_char_count,
            final(self).longest_title == old(self).longest_title,
            removed == (cc_count(old(self).category_count@, category@) > 0 && cat_entry_count(
                old(self).category_count@,
                category@,
            ) == 1),
            cc_count(old(self).category_count@, category@) == 0 ==> final(self).categories == old(
                self,
            ).categories && final(self).category_count == old(self).category_count && final(self).categories_char_count == old(self).categories_char_count && final(self).longest_category == old(self).longest_category,
            cc_count(old(self).category_count@, category@) > 0 ==> exists|k: int|
                {
                    &&& 0 <= k < old(self).category_count@.len()
                    &&& (#[trigger] old(self).category_count@[k]).name@ == category@
                    &&& if old(self).category_count@[k].count > 1 {
                        final(self).category_count@ == old(self).category_count@.update(
                            k,
                            CategoryCount {
                                name: old(self).category_count@[k].name,
                                count: (old(self).category_count@[k].count - 1) as usize,
                            },
                        ) && final(self).categories == old(self).categories && final(self).categories_char_count == old(self).categories_char_count && final(self).longest_category == old(self).longest_category
                    } else {
                        final(self).category_count@ == old(self).category_count@.remove(k)
                            && (exists|p: int|
                            0 <= p < old(self).categories@.len() && (#[trigger] old(self).categories@[p])@ == category@ && final(self).categories@ == old(self).categories@.remove(p)) && ({
                            let (v2, l2) = hist_removed(
                                old(self).categories_char_count@,
                                old(self).longest_category as int,
                                category@.len() as int,
                            );
                            final(self).categories_char_count@ == v2 && final(self).longest_category as int == l2
                        })
                    }
                },
    {
        let ghost oldcc = self.category_count@;
        let ghost oldcats = self.categories@;
        match Self::find_count_index(&self.category_count, category) {
            None => {
                proof {
                    lemma_cc_count_zero(oldcc, category@);
                }
                false
            },
            Some(k) => {
                proof {
                    lemma_cc_count_at(oldcc, category@, k as int);
                    lemma_cat_entry_count_at(oldcc, category@, k as int);
                }
                let cur = self.category_count[k].count;
                if cur > 1 {
                    let cur_name = self.category_count[k].name.clone();
                    let entry = CategoryCount { name: cur_name, count: cur - 1 };
                    self.category_count.set(k, entry);
                    proof {
                        let spec_entry = CategoryCount {
                            name: oldcc[k as int].name,
                            count: (oldcc[k as int].count - 1) as usize,
                        };
                        lemma_cc_count_update(oldcc, k as int, spec_entry);
                        assert(self.category_count@ =~= oldcc.update(k as int, spec_entry));
                    }
                    false
                } else {
                    self.category_count.remove(k);
                    proof {
                        lemma_cc_count_remove(oldcc, category@, k as int);
                    }
                    match Self::find_category_index(&self.categories, category) {
                        Some(p) => {
                            proof {
                                let w = category@.len() as int;
                                lemma_len_count_at(oldcats, w as nat, p as int);
                            }
                            self.remove_category_char_count(category);
                            self.categories.remove(p);
                            proof {
                                lemma_remove_category_wf(*old(self), *self, k as int, p as int);
                            }
                            true
                        },
                        None => {
                            proof {
                                lemma_name_count_zero(oldcats, category@);
                                assert(false);
                            }
                            true
                        },
                    }
                }
            },
        }
    }
}

/// The stored reference count of a name, zero when absent.
pub open spec fn cat_entry_count(s: Seq<CategoryCount>, n: Seq<char>) -> nat
    decreases s.len(),
{
    if s.len() == 0 {
        0
    } else if s.last().name@ == n {
        s.last().count as nat
    } else {
        cat_entry_count(s.drop_last(), n)
    }
}

/// With distinct entries, the entry found at an index carries the stored
/// count of its name.
pub proof fn lemma_cat_entry_count_at(s: Seq<CategoryCount>, n: Seq<char>, k: int)
    requires
        0 <= k < s.len(),
        s[k].name@ == n,
        cc_count(s, n) <= 1,
    ensures
        cat_entry_count(s, n) == s[k].count,
    decreases s.len(),
{
    if k == s.len() - 1 {
    } else {
        if s.last().name@ == n {
            lemma_cc_count_at(s.drop_last(), n, k);
            assert(cc_count(s, n) >= 2);
        } else {
            lemma_cat_entry_count_at(s.drop_last(), n, k);
        }
    }
}

/// After the last holder of a name leaves the count map, the sorted list and
/// the width histogram, the category set is consistent again.
proof fn lemma_remove_category_wf(pre: ParsedFile, post: ParsedFile, k: int, p: int)
    requires
        pre.catset_wf(),
        0 <= k < pre.category_count@.len(),
        0 <= p < pre.categories@.len(),
        pre.categories@[p]@ == pre.category_count@[k].name@,
        post.category_count@ == pre.category_count@.remove(k),
        post.categories@ == pre.categories@.remove(p),
        ({
            let (v2, l2) = hist_removed(
                pre.categories_char_count@,
                pre.longest_category as int,
                pre.categories@[p]@.len() as int,
            );
            post.categories_char_count@ == v2 && post.longest_category as int == l2
        }),
    ensures
        post.catset_wf(),
{
    let cats = pre.categories@;
    let cc = pre.category_count@;
    let hist = pre.categories_char_count@;
    let name = cats[p]@;
    let w = name.len() as int;
    let newcats = post.categories@;
    let newcc = post.category_count@;
    let newhist = post.categories_char_count@;
    assert forall|n: Seq<char>| #[trigger] cc_count(newcc, n) == cc_count(cc, n) - (if n == name {
        1int
    } else {
        0int
    }) by {
        lemma_cc_count_remove(cc, n, k);
    }
    assert forall|n: Seq<char>| #[trigger] name_count(newcats, n) == name_count(cats, n) - (if n
        == name {
        1int
    } else {
        0int
    }) by {
        lemma_name_count_remove(cats, n, p);
        if n == name {
            lemma_name_count_at(cats, n, p);
        }
    }
    assert forall|i: int, j: int| 0 <= i < j < newcats.len() implies alpha_le(
        newcats[i]@,
        newcats[j]@,
    ) by {
        let i2 = if i < p {
            i
        } else {
            i + 1
        };
        let j2 = if j < p {
            j
        } else {
            j + 1
        };
        assert(newcats[i] == cats[i2]);
        assert(newcats[j] == cats[j2]);
    }
    // the removed name's width bucket is in range
    assert(cats[p]@.len() < hist.len());
    assert(w < hist.len());
    if w == 0 {
        assert(newhist == hist);
        assert forall|v: int| 0 < v < newhist.len() implies (#[trigger] newhist[v]) as nat
            == len_count(newcats, v as nat) by {
            lemma_len_count_remove(cats, v as nat, p);
            assert(hist[v] as nat == len_count(cats, v as nat));
        }
        assert forall|i: int| 0 <= i < newcats.len() implies (#[trigger] newcats[i]@.len())
            <= post.longest_category by {
            let i2 = if i < p {
                i
            } else {
                i + 1
            };
            assert(newcats[i] == cats[i2]);
        }
        if post.longest_category > 0 {
            lemma_len_count_remove(cats, post.longest_category as nat, p);
        }
    } else {
        let v2 = hist.update(w, (hist[w] - 1) as usize);
        lemma_len_count_at(cats, w as nat, p);
        assert(hist[w] as nat == len_count(cats, w as nat));
        assert forall|v: int| 0 < v < newhist.len() implies (#[trigger] newhist[v]) as nat
            == len_count(newcats, v as nat) by {
            lemma_len_count_remove(cats, v as nat, p);
            assert(hist[v] as nat == len_count(cats, v as nat));
        }
        if v2[w] == 0 && w == pre.longest_category as int {
            lemma_scan_down_props(v2, w);
            let l2 = scan_down(v2, w);
            assert(post.longest_category as int == l2);
            assert forall|i: int| 0 <= i < newcats.len() implies (#[trigger] newcats[i]@.len())
                <= post.longest_category by {
                let i2 = if i < p {
                    i
                } else {
                    i + 1
                };
                assert(newcats[i] == cats[i2]);
                let wi = cats[i2]@.len() as int;
                if wi > l2 {
                    assert(wi <= pre.longest_category as int);
                    assert(wi < v2.len());
                    assert(v2[wi] == 0);
                    assert(newhist[wi] as nat == len_count(newcats, wi as nat));
                    lemma_len_count_at(newcats, wi as nat, i);
                    assert(false);
                }
            }
            if post.longest_category > 0 {
                assert(v2[l2] > 0);
                assert(newhist[l2] as nat == len_count(newcats, l2 as nat));
            }
        } else {
            assert(post.longest_category == pre.longest_category);
            assert forall|i: int| 0 <= i < newcats.len() implies (#[trigger] newcats[i]@.len())
                <= post.longest_category by {
                let i2 = if i < p {
                    i
                } else {
                    i + 1
                };
                assert(newcats[i] == cats[i2]);
            }
            if post.longest_category > 0 {
                let li = post.longest_category as int;
                lemma_len_count_remove(cats, post.longest_category as nat, p);
                if w == li {
                    assert(len_count(newcats, post.longest_category as nat) == v2[w]);
                    assert(v2[w] != 0);
                } else {
                    assert(hist[li] as nat == len_count(cats, post.longest_category as nat));
                    assert(len_count(cats, post.longest_category as nat) > 0);
                }
            }
        }
    }
}


/// Two distinct entries with one name would double the name's multiplicity.
pub proof fn lemma_cc_count_two(s: Seq<CategoryCount>, n: Seq<char>, k1: int, k2: int)
    requires
        0 <= k1 < k2 < s.len(),
        s[k1].name@ == n,
        s[k2].name@ == n,
    ensures
        cc_count(s, n) >= 2,
{
    lemma_cc_count_remove(s, n, k2);
    lemma_cc_count_at(s.remove(k2), n, k1);
}

/// After a record of width `w` leaves, an exact histogram stays exact.
pub proof fn lemma_widths_after_remove(
    recs: Seq<BookmarkView>,
    i: int,
    hist: Seq<usize>,
    longest: usize,
    newhist: Seq<usize>,
    newlongest: usize,
)
    requires
        widths_ok(recs, hist, longest),
        0 <= i < recs.len(),
        ({
            let (v2, l2) = hist_removed(hist, longest as int, recs[i].title.len() as int);
            newhist == v2 && newlongest as int == l2
        }),
    ensures
        widths_ok(recs.remove(i), newhist, newlongest),
{
    let w = recs[i].title.len() as int;
    let recs2 = recs.remove(i);
    assert(recs[i].title.len() < hist.len());
    assert forall|v: int| 0 < v < newhist.len() implies (#[trigger] newhist[v]) as nat
        == width_count(recs2, v as nat) by {
        lemma_width_count_remove(recs, v as nat, i);
        assert(hist[v] as nat == width_count(recs, v as nat));
    }
    if w == 0 {
        assert(newhist == hist);
        if newlongest > 0 {
            lemma_width_count_remove(recs, newlongest as nat, i);
        }
    } else {
        let v2 = hist.update(w, (hist[w] - 1) as usize);
        lemma_width_count_at(recs, w as nat, i);
        assert(hist[w] as nat == width_count(recs, w as nat));
        if v2[w] == 0 && w == longest as int {
            lemma_scan_down_props(v2, w);
            let l2 = scan_down(v2, w);
            assert forall|j: int| 0 <= j < recs2.len() implies (#[trigger] recs2[j].title.len())
                <= newlongest by {
                let j2 = if j < i {
                    j
                } else {
                    j + 1
                };
                assert(recs2[j] == recs[j2]);
                let wj = recs[j2].title.len() as int;
                if wj > l2 {
                    assert(wj <= longest as int);
                    assert(v2[wj] == 0);
                    assert(newhist[wj] as nat == width_count(recs2, wj as nat));
                    lemma_width_count_at(recs2, wj as nat, j);
                    assert(false);
                }
            }
            if newlongest > 0 {
                assert(v2[l2] > 0);
                assert(newhist[l2] as nat == width_count(recs2, l2 as nat));
            }
        } else {
            assert(newlongest == longest);
            assert forall|j: int| 0 <= j < recs2.len() implies (#[trigger] recs2[j].title.len())
                <= newlongest by {
                let j2 = if j < i {
                    j
                } else {
                    j + 1
                };
                assert(recs2[j] == recs[j2]);
            }
            if newlongest > 0 {
                let li = newlongest as int;
                lemma_width_count_remove(recs, newlongest as nat, i);
                if w == li {
                    assert(width_count(recs2, newlongest as nat) == v2[w]);
                    assert(v2[w] != 0);
                } else {
                    assert(hist[li] as nat == width_count(recs, newlongest as nat));
                }
            }
        }
    }
}

/// After a record of width `w` arrives, an exact histogram stays exact.
pub proof fn lemma_widths_after_add(
    recs: Seq<BookmarkView>,
    b: BookmarkView,
    hist: Seq<usize>,
    longest: usize,
    newhist: Seq<usize>,
    newlongest: usize,
)
    requires
        widths_ok(recs, hist, longest),
        recs.len() < usize::MAX,
        ({
            let (v2, l2) = hist_added(hist, longest as int, b.title.len() as int);
            newhist == v2 && newlongest as int == l2
        }),
    ensures
        widths_ok(recs.push(b), newhist, newlongest),
{
    let w = b.title.len() as int;
    let recs2 = recs.push(b);
    assert(recs2.drop_last() =~= recs);
    assert forall|n2: nat| #[trigger] width_count(recs2, n2) == width_count(recs, n2) + (if b.title.len() == n2 {
        1int
    } else {
        0int
    }) by {}
    lemma_width_count_le_len(recs, w as nat);
    if w == 0 {
        assert(newhist == hist);
        assert forall|v: int| 0 < v < newhist.len() implies (#[trigger] newhist[v]) as nat
            == width_count(recs2, v as nat) by {
            assert(hist[v] as nat == width_count(recs, v as nat));
        }
        assert forall|j: int| 0 <= j < recs2.len() implies (#[trigger] recs2[j].title.len())
            <= newlongest by {
            if j < recs.len() {
                assert(recs2[j] == recs[j]);
            }
        }
        if newlongest > 0 {
            assert(width_count(recs2, newlongest as nat) == width_count(recs, newlongest as nat));
        }
    } else {
        let g = hist_grown(hist, w);
        assert(g[w] < usize::MAX);
        assert forall|v: int| 0 < v < newhist.len() implies (#[trigger] newhist[v]) as nat
            == width_count(recs2, v as nat) by {
            if v != w {
                assert(newhist[v] == g[v]);
                if v < hist.len() {
                    assert(g[v] == hist[v]);
                    assert(hist[v] as nat == width_count(recs, v as nat));
                } else {
                    if width_count(recs, v as nat) > 0 {
                        lemma_width_count_nonzero(recs, v as nat);
                        assert(false);
                    }
                    assert(g[v] == 0);
                }
            } else {
                assert(newhist[w] as int == g[w] + 1);
                if w < hist.len() {
                    assert(g[w] == hist[w]);
                    assert(hist[w] as nat == width_count(recs, w as nat));
                } else {
                    if width_count(recs, w as nat) > 0 {
                        lemma_width_count_nonzero(recs, w as nat);
                        assert(false);
                    }
                    assert(g[w] == 0);
                }
            }
        }
        assert forall|j: int| 0 <= j < recs2.len() implies (#[trigger] recs2[j].title.len())
            <= newlongest by {
            if j < recs.len() {
                assert(recs2[j] == recs[j]);
            }
        }
        if newlongest > 0 {
            if w == newlongest as int {
                assert(width_count(recs2, newlongest as nat) >= 1);
            } else {
                assert(newlongest == longest);
                assert(width_count(recs, newlongest as nat) > 0);
            }
        }
    }
}

impl ParsedFile {
    /// The first index holding this URL in the store.
    pub(crate) fn find_bookmark_index(store: &Vec<Bookmark>, url: &str) -> (r: Option<usize>)
        ensures
            match r {
                Some(i) => i < store@.len() && store.deep_view()[i as int].url == url@ && forall|
                    j: int,
                |
                    0 <= j < i ==> store.deep_view()[j].url != url@,
                None => forall|j: int| 0 <= j < store@.len() ==> store.deep_view()[j].url != url@,
            },
    {
        let n = store.len();
        let mut k: usize = 0;
        while k < n
            invariant
                n == store@.len(),
                k <= n,
                forall|j: int| 0 <= j < k ==> store.deep_view()[j].url != url@,
            decreases n - k,
        {
            if str_eq(store[k].url(), url) {
                proof {
                    assert(store.deep_view()[k as int] == store@[k as int]@);
                }
                return Some(k);
            }
            proof {
                assert(store.deep_view()[k as int] == store@[k as int]@);
            }
            k = k + 1;
        }
        None
    }

    /// Removes the record keyed by this URL, if any, together with its traces
    /// in the category set and the width histogram. The flag says whether the
    /// record's category left the sorted list.
    fn take_out_url(&mut self, url: &str) -> (r: (Option<Bookmark>, bool))
        requires
            old(self).wf(),
        ensures
            final(self).wf(),
            final(self).invalid_lines == old(self).invalid_lines,
            url_lookup(old(self).recs(), url@) is None ==> *final(self) == *old(self) && r.0
                is None && r.1 == false && remove_url(old(self).recs(), url@) == old(self).recs(),
            url_lookup(old(self).recs(), url@) matches Some(bv) ==> {
                &&& r.0 matches Some(b) && b@ == bv
                &&& final(self).recs() == remove_url(old(self).recs(), url@)
                &&& r.1 == (cat_count(old(self).recs(), bv.category) == 1)
            },
            forall|j: int| 0 <= j < final(self).recs().len() ==> (#[trigger] final(self).recs()[j]).url != url@,
    {
        let ghost oldrecs = self.recs();
        let ghost oldcc = self.category_count@;
        match Self::find_bookmark_index(&self.bookmarks, url) {
            None => {
                proof {
                    lemma_url_absent(oldrecs, url@);
                }
                (None, false)
            },
            Some(i) => {
                proof {
                    lemma_url_found(oldrecs, url@, i as int);
                }
                let b = self.bookmarks.remove(i);
                let ghost recs2 = self.recs();
                proof {
                    assert(recs2 =~= oldrecs.remove(i as int));
                    assert(b@ == oldrecs[i as int]);
                    // the record's category is live, so its entry exists
                    lemma_cat_count_at(oldrecs, b@.category, i as int);
                    assert(cc_count(oldcc, b@.category) == 1);
                }
                let removed_cat = self.remove_category(b.category());
                proof {
                    // the found entry carried the exact live count
                    lemma_cc_count_nonzero(oldcc, b@.category);
                    let ke = choose|ke: int|
                        0 <= ke < oldcc.len() && oldcc[ke].name@ == b@.category;
                    lemma_cat_entry_count_at(oldcc, b@.category, ke);
                    assert(cat_entry_count(oldcc, b@.category) == cat_count(oldrecs, b@.category));
                    assert(removed_cat == (cat_count(oldrecs, b@.category) == 1));
                }
                proof {
                    // the record's width bucket is nonempty
                    if 0 < b@.title.len() && (b@.title.len() as int)
                        < self.titles_char_count@.len() {
                        lemma_width_count_at(oldrecs, b@.title.len(), i as int);
                    }
                }
                self.remove_titles_char_count(b.title());
                proof {
                    lemma_take_out_wf(*old(self), *self, b@, i as int, removed_cat);
                    assert forall|j: int| 0 <= j < self.recs().len() implies (#[trigger] self.recs()[j]).url != url@ by {
                        let j2 = if j < i as int {
                            j
                        } else {
                            j + 1
                        };
                        assert(self.recs()[j] == oldrecs[j2]);
                        if j2 != i as int {
                            assert(oldrecs[i as int].url == url@);
                        }
                    };
                }
                (Some(b), removed_cat)
            },
        }
    }
}

/// After a record leaves the store, the count map, and the width histogram,
/// the whole index is consistent again.
proof fn lemma_take_out_wf(
    pre: ParsedFile,
    post: ParsedFile,
    bv: BookmarkView,
    i: int,
    removed_cat: bool,
)
    requires
        pre.wf(),
        0 <= i < pre.recs().len(),
        pre.recs()[i] == bv,
        post.recs() == pre.recs().remove(i),
        post.invalid_lines == pre.invalid_lines,
        post.catset_wf(),
        // what remove_category left behind
        removed_cat == (cat_count(pre.recs(), bv.category) == 1),
        removed_cat ==> exists|k: int|
            0 <= k < pre.category_count@.len() && (#[trigger] pre.category_count@[k]).name@
                == bv.category && post.category_count@ == pre.category_count@.remove(k),
        !removed_cat ==> exists|k: int|
            0 <= k < pre.category_count@.len() && (#[trigger] pre.category_count@[k]).name@
                == bv.category && post.category_count@ == pre.category_count@.update(
                k,
                CategoryCount {
                    name: pre.category_count@[k].name,
                    count: (pre.category_count@[k].count - 1) as usize,
                },
            ),
        // what the width bookkeeping left behind
        ({
            let (v2, l2) = hist_removed(
                pre.titles_char_count@,
                pre.longest_title as int,
                bv.title.len() as int,
            );
            post.titles_char_count@ == v2 && post.longest_title as int == l2
        }),
    ensures
        post.wf(),
{
    let recs = pre.recs();
    let recs2 = post.recs();
    let cc = pre.category_count@;
    let newcc = post.category_count@;
    let name = bv.category;
    // distinct URLs survive a removal
    assert forall|a: int, b2: int| 0 <= a < b2 < recs2.len() implies recs2[a].url
        != recs2[b2].url by {
        let a2 = if a < i {
            a
        } else {
            a + 1
        };
        let b3 = if b2 < i {
            b2
        } else {
            b2 + 1
        };
        assert(recs2[a] == recs[a2]);
        assert(recs2[b2] == recs[b3]);
    }
    // the count map still mirrors the records
    assert(cat_count(recs, name) >= 1) by {
        lemma_cat_count_at(recs, name, i);
    }
    assert forall|n: Seq<char>| #[trigger] cat_count(recs2, n) == cat_count(recs, n) - (if n
        == name {
        1int
    } else {
        0int
    }) by {
        lemma_cat_count_remove(recs, n, i);
    }
    if removed_cat {
        let k = choose|k: int|
            0 <= k < cc.len() && (#[trigger] cc[k]).name@ == name && newcc == cc.remove(k);
        assert forall|n: Seq<char>| #[trigger] cc_count(newcc, n) == cc_count(cc, n) - (if n
            == name {
            1int
        } else {
            0int
        }) by {
            lemma_cc_count_remove(cc, n, k);
        }
        assert forall|k2: int| 0 <= k2 < newcc.len() implies (#[trigger] newcc[k2].count) as nat
            == cat_count(recs2, newcc[k2].name@) by {
            let k3 = if k2 < k {
                k2
            } else {
                k2 + 1
            };
            assert(newcc[k2] == cc[k3]);
            if cc[k3].name@ == name {
                lemma_cc_count_two(cc, name, if k3 < k {
                    k3
                } else {
                    k
                }, if k3 < k {
                    k
                } else {
                    k3
                });
            }
        }
    } else {
        let k = choose|k: int|
            0 <= k < cc.len() && (#[trigger] cc[k]).name@ == name && newcc == cc.update(
                k,
                CategoryCount { name: cc[k].name, count: (cc[k].count - 1) as usize },
            );
        let entry = CategoryCount { name: cc[k].name, count: (cc[k].count - 1) as usize };
        lemma_cc_count_update(cc, k, entry);
        assert forall|n: Seq<char>| #[trigger] cc_count(newcc, n) == cc_count(cc, n) by {}
        assert forall|k2: int| 0 <= k2 < newcc.len() implies (#[trigger] newcc[k2].count) as nat
            == cat_count(recs2, newcc[k2].name@) by {
            if k2 == k {
            } else {
                assert(newcc[k2] == cc[k2]);
                if cc[k2].name@ == name {
                    lemma_cc_count_two(cc, name, if k2 < k {
                        k2
                    } else {
                        k
                    }, if k2 < k {
                        k
                    } else {
                        k2
                    });
                }
            }
        }
        assert forall|n: Seq<char>| #[trigger] cc_count(newcc, n) == (if cat_count(recs2, n) > 0 {
            1nat
        } else {
            0nat
        }) by {
            if n == name {
                assert(cat_count(recs, name) >= 2);
            }
        }
    }
    // the width histogram still mirrors the records
    lemma_widths_after_remove(
        recs,
        i,
        pre.titles_char_count@,
        pre.longest_title,
        post.titles_char_count@,
        post.longest_title,
    );
}


/// The cache after one mutation of the index: dirty, the bookmark version
/// advanced, and the category version advanced when the set changed.
pub open spec fn cache_after_mutation(v: crate::plain_text::PlainTextView, cats_changed: bool) -> crate::plain_text::PlainTextView {
    crate::plain_text::with_edited(
        crate::plain_text::with_bookmarks_bumped(
            if cats_changed {
                crate::plain_text::with_categories_bumped(v)
            } else {
                v
            },
        ),
    )
}

/// After a record with a URL no live record holds joins the store, the count
/// map updated for its category mirrors the records again.
proof fn lemma_insert_counts_ok(
    recs: Seq<BookmarkView>,
    b: BookmarkView,
    cc: Seq<CategoryCount>,
    newcc: Seq<CategoryCount>,
    added: bool,
    k: int,
)
    requires
        counts_ok(recs, cc),
        added == (cc_count(cc, b.category) == 0),
        added ==> newcc.len() == cc.len() + 1 && newcc[cc.len() as int].name@ == b.category
            && newcc[cc.len() as int].count == 1 && forall|k2: int|
            0 <= k2 < cc.len() ==> newcc[k2] == cc[k2],
        !added ==> 0 <= k < cc.len() && cc[k].name@ == b.category && cc[k].count < usize::MAX
            && newcc == cc.update(
            k,
            CategoryCount { name: cc[k].name, count: (cc[k].count + 1) as usize },
        ),
    ensures
        counts_ok(recs.push(b), newcc),
{
    let recs2 = recs.push(b);
    assert(recs2.drop_last() =~= recs);
    if added {
        assert(newcc =~= cc.push(newcc[cc.len() as int]));
        assert forall|n: Seq<char>| #[trigger] cc_count(newcc, n) == cc_count(cc, n) + (if n
            == b.category {
            1int
        } else {
            0int
        }) by {
            assert(newcc.drop_last() =~= cc);
        }
        assert forall|k2: int| 0 <= k2 < newcc.len() implies (#[trigger] newcc[k2].count) as nat
            == cat_count(recs2, newcc[k2].name@) by {
            if k2 < cc.len() {
                if cc[k2].name@ == b.category {
                    lemma_cc_count_at(cc, b.category, k2);
                    assert(false);
                }
            }
        }
    } else {
        lemma_cc_count_at(cc, b.category, k);
        lemma_cc_count_update(
            cc,
            k,
            CategoryCount { name: cc[k].name, count: (cc[k].count + 1) as usize },
        );
        assert forall|k2: int| 0 <= k2 < newcc.len() implies (#[trigger] newcc[k2].count) as nat
            == cat_count(recs2, newcc[k2].name@) by {
            if k2 != k {
                assert(newcc[k2] == cc[k2]);
                if cc[k2].name@ == b.category {
                    lemma_cc_count_two(cc, b.category, if k2 < k {
                        k2
                    } else {
                        k
                    }, if k2 < k {
                        k
                    } else {
                        k2
                    });
                }
            }
        }
    }
}

impl ParsedFile {
    /// Replaces whatever record held this URL with the given one, keeping the
    /// category set and the width histogram exact.
    fn upsert_record(&mut self, b: Bookmark)
        requires
            old(self).wf(),
            old(self).recs().len() < usize::MAX,
        ensures
            final(self).wf(),
            final(self).invalid_lines == old(self).invalid_lines,
            final(self).recs() == upsert(old(self).recs(), b@),
    {
        let ghost oldrecs = self.recs();
        let (_gone, _catgone) = self.take_out_url(b.url());
        let ghost mid = *self;
        let ghost midrecs = self.recs();
        proof {
            assert(midrecs == remove_url(oldrecs, b@.url));
            lemma_remove_url_len(oldrecs, b@.url);
            assert(midrecs.len() <= oldrecs.len());
            // the sorted list cannot outnumber the records it reflects
            assert forall|a: int, c: int|
                0 <= a < c < mid.categories@.len() implies mid.categories@[a]@
                != mid.categories@[c]@ by {
                if mid.categories@[a]@ == mid.categories@[c]@ {
                    lemma_name_count_remove(mid.categories@, mid.categories@[a]@, c);
                    lemma_name_count_at(mid.categories@.remove(c), mid.categories@[a]@, a);
                    assert(name_count(mid.categories@, mid.categories@[a]@) >= 2);
                }
            }
            assert forall|a: int|
                0 <= a < mid.categories@.len() implies cat_count(
                midrecs,
                #[trigger] mid.categories@[a]@,
            ) >= 1 by {
                lemma_name_count_at(mid.categories@, mid.categories@[a]@, a);
            }
            lemma_distinct_live_names_le(mid.categories@, midrecs);
            // a matching count entry carries a live count, which is bounded
            assert forall|k: int|
                0 <= k < mid.category_count@.len() && (#[trigger] mid.category_count@[k]).name@
                    == b@.category implies mid.category_count@[k].count < usize::MAX by {
                lemma_cat_count_le_len(midrecs, b@.category);
            }
        }
        let added = self.add_category(b.category().to_owned());
        let ghost cc_after = self.category_count@;
        proof {
            // the new title's bucket, if it exists, is below the limit
            if 0 < b@.title.len() && (b@.title.len() as int) < self.titles_char_count@.len() {
                lemma_width_count_le_len(midrecs, b@.title.len());
            }
        }
        self.add_titles_char_count(b.title());
        self.bookmarks.push(b);
        proof {
            assert(self.recs() =~= midrecs.push(self.recs().last()));
            let bv = self.recs().last();
            // distinct URLs: the removed key is gone, the new one is fresh
            assert forall|a: int, c: int|
                0 <= a < c < self.recs().len() implies (#[trigger] self.recs()[a]).url
                != (#[trigger] self.recs()[c]).url by {
                if c < midrecs.len() {
                    assert(self.recs()[a] == midrecs[a]);
                    assert(self.recs()[c] == midrecs[c]);
                } else {
                    assert(self.recs()[a] == midrecs[a]);
                    assert(self.recs()[c] == bv);
                }
            }
            if added {
                lemma_insert_counts_ok(midrecs, bv, mid.category_count@, cc_after, added, 0);
            } else {
                let k = choose|k: int|
                    0 <= k < mid.category_count@.len() && (#[trigger] mid.category_count@[k]).name@
                        == b@.category && cc_after == mid.category_count@.update(
                        k,
                        CategoryCount {
                            name: mid.category_count@[k].name,
                            count: (mid.category_count@[k].count + 1) as usize,
                        },
                    );
                lemma_cat_count_le_len(midrecs, b@.category);
                lemma_insert_counts_ok(midrecs, bv, mid.category_count@, cc_after, added, k);
            }
            lemma_widths_after_add(
                midrecs,
                bv,
                mid.titles_char_count@,
                mid.longest_title,
                self.titles_char_count@,
                self.longest_title,
            );
            assert(self.recs() =~= upsert(oldrecs, b@));
        }
    }

    /// A copy of the sorted name list, taken before a mutation so that the
    /// cache is invalidated only when the list really changed.
    fn clone_names(v: &Vec<String>) -> (r: Vec<String>)
        ensures
            r.deep_view() == v.deep_view(),
    {
        let n = v.len();
        let mut r: Vec<String> = Vec::new();
        let mut k: usize = 0;
        proof {
            assert(r.deep_view() =~~= v.deep_view().take(0));
        }
        while k < n
            invariant
                n == v@.len(),
                k <= n,
                r.deep_view() == v.deep_view().take(k as int),
            decreases n - k,
        {
            let ghost pre = r.deep_view();
            let item = v[k].clone();
            proof {
                assert(item@ == v.deep_view()[k as int]);
            }
            r.push(item);
            k = k + 1;
            proof {
                assert(r.deep_view() =~~= pre.push(v.deep_view()[k as int - 1]));
                assert(r.deep_view() =~~= v.deep_view().take(k as int));
            }
        }
        proof {
            assert(v.deep_view().take(n as int) =~= v.deep_view());
        }
        r
    }

    /// Whether two name lists hold the same names in the same order.
    fn names_equal(a: &Vec<String>, b: &Vec<String>) -> (r: bool)
        ensures
            r == (a.deep_view() == b.deep_view()),
    {
        let n = a.len();
        if b.len() != n {
            proof {
                assert(a.deep_view().len() != b.deep_view().len());
            }
            return false;
        }
        let mut k: usize = 0;
        while k < n
            invariant
                n == a@.len(),
                n == b@.len(),
                k <= n,
                forall|j: int| 0 <= j < k ==> a.deep_view()[j] == b.deep_view()[j],
            decreases n - k,
        {
            proof {
                assert(a.deep_view()[k as int] == a@[k as int]@);
                assert(b.deep_view()[k as int] == b@[k as int]@);
            }
            if !str_eq(a[k].as_str(), b[k].as_str()) {
                return false;
            }
            k = k + 1;
        }
        proof {
            assert(a.deep_view() =~~= b.deep_view());
        }
        true
    }

    /// The sorted category names of the live records.
    pub fn categories(&self) -> (r: &Vec<String>)
        ensures
            r@ == self.categories@,
    {
        &self.categories
    }

    /// Adds a bookmark; a record already keyed by its URL is replaced. The
    /// cache is marked dirty, the listing's version advances, and the
    /// category listing's version advances exactly when the sorted name list
    /// came out changed.
    pub fn add_bookmark(&mut self, plain_text: &mut PlainText, new_bookmark: Bookmark)
        requires
            old(self).wf(),
            old(self).recs().len() < usize::MAX,
        ensures
            final(self).wf(),
            final(self).invalid_lines == old(self).invalid_lines,
            final(self).recs() == upsert(old(self).recs(), new_bookmark@),
            final(plain_text)@ == cache_after_mutation(
                old(plain_text)@,
                final(self).categories.deep_view() != old(self).categories.deep_view(),
            ),
    {
        let names_before = Self::clone_names(&self.categories);
        self.upsert_record(new_bookmark);
        if !Self::names_equal(&names_before, &self.categories) {
            plain_text.increment_categories_version();
        }
        plain_text.increment_bookmarks_version();
        plain_text.set_edited_true();
    }

    /// Replaces one record by another: the old identity leaves first, then
    /// the new record arrives. Handing in an unchanged record is a no-op: the
    /// cache keeps its versions and stays clean. Otherwise the category
    /// listing's version advances exactly when the sorted name list came out
    /// changed; keeping the category never invalidates it.
    pub fn modify_bookmark(
        &mut self,
        plain_text: &mut PlainText,
        new_bookmark: Bookmark,
        old_bookmark: &Bookmark,
    )
        requires
            old(self).wf(),
            old(self).recs().len() < usize::MAX,
        ensures
            final(self).wf(),
            final(self).invalid_lines == old(self).invalid_lines,
            old_bookmark@ == new_bookmark@ ==> *final(self) == *old(self) && *final(plain_text)
                == *old(plain_text),
            old_bookmark@ != new_bookmark@ ==> ({
                let mid = remove_url(old(self).recs(), old_bookmark@.url);
                &&& final(self).recs() == upsert(mid, new_bookmark@)
                &&& final(plain_text)@ == cache_after_mutation(
                    old(plain_text)@,
                    final(self).categories.deep_view() != old(self).categories.deep_view(),
                )
            }),
    {
        if *old_bookmark == new_bookmark {
            return ;
        }
        let names_before = Self::clone_names(&self.categories);
        let (_gone, _catgone) = self.take_out_url(old_bookmark.url());
        proof {
            lemma_remove_url_len(old(self).recs(), old_bookmark@.url);
        }
        self.upsert_record(new_bookmark);
        if !Self::names_equal(&names_before, &self.categories) {
            plain_text.increment_categories_version();
        }
        plain_text.increment_bookmarks_version();
        plain_text.set_edited_true();
    }

    /// Removes the record keyed by this URL; absent URLs change nothing, not
    /// even the cache's versions.
    pub fn remove_bookmark(&mut self, plain_text: &mut PlainText, url: &str)
        requires
            old(self).wf(),
        ensures
            final(self).wf(),
            final(self).invalid_lines == old(self).invalid_lines,
            url_lookup(old(self).recs(), url@) is None ==> *final(self) == *old(self) && *final(plain_text) == *old(plain_text),
            url_lookup(old(self).recs(), url@) matches Some(bv) ==> {
                &&& final(self).recs() == remove_url(old(self).recs(), url@)
                &&& final(plain_text)@ == cache_after_mutation(
                    old(plain_text)@,
                    cat_count(old(self).recs(), bv.category) == 1,
                )
            },
    {
        let (removed, catgone) = self.take_out_url(url);
        if removed.is_some() {
            if catgone {
                plain_text.increment_categories_version();
            }
            plain_text.increment_bookmarks_version();
            plain_text.set_edited_true();
        }
    }

    /// Parses the stored text: every line becomes a record, is skipped as
    /// blank or separator, or is preserved verbatim with its line number.
    pub fn new(plain_text_bookmarks: &str) -> (r: Self)
        ensures
            r.wf(),
            r.recs() == parse_records(lines_of(plain_text_bookmarks@)),
            invalid_view(r.invalid_lines@) == parse_invalid(lines_of(plain_text_bookmarks@)),
    {
        let mut parsed_file = ParsedFile {
            bookmarks: Vec::new(),
            titles_char_count: vec![0; TITLE_MAX_LENGTH + 1],
            longest_title: 0,
            invalid_lines: Vec::new(),
            categories: Vec::new(),
            category_count: Vec::new(),
            categories_char_count: vec![0; CATEGORY_MAX_LENGTH + 1],
            longest_category: 0,
        };
        proof {
            assert(parsed_file.recs() =~= Seq::<BookmarkView>::empty());
            assert(parsed_file.wf());
            assert(parsed_file.recs() == parse_records(Seq::<Seq<char>>::empty()));
            assert(invalid_view(parsed_file.invalid_lines@) =~= parse_invalid(
                Seq::<Seq<char>>::empty(),
            ));
        }
        let lines = split_lines(plain_text_bookmarks);
        let n = lines.len();
        let ghost glines = lines.deep_view();
        proof {
            assert(glines.take(0) =~= Seq::<Seq<char>>::empty());
        }
        let mut i: usize = 0;
        while i < n
            invariant
                n == lines@.len(),
                glines == lines.deep_view(),
                glines == lines_of(plain_text_bookmarks@),
                i <= n,
                parsed_file.wf(),
                parsed_file.recs().len() <= i,
                parsed_file.recs() == parse_records(glines.take(i as int)),
                invalid_view(parsed_file.invalid_lines@) == parse_invalid(glines.take(i as int)),
            decreases n - i,
        {
            let ghost prev = parsed_file.recs();
            let line = &lines[i];
            let trimmed = trim_str(line.as_str());
            proof {
                assert(glines[i as int] == lines@[i as int]@);
                assert(glines.take(i as int + 1).drop_last() =~= glines.take(i as int));
                assert(glines.take(i as int + 1).last() == glines[i as int]);
            }
            if all_separator(trimmed) {
                // blank, or a separator line of a previous rendering: dropped
            } else {
                match Bookmark::from_line(trimmed) {
                    Some(bookmark) => {
                        proof {
                            lemma_remove_url_len(prev, bookmark@.url);
                        }
                        let _changed = parsed_file.upsert_record(bookmark);
                    },
                    None => {
                        let owned = line.clone();
                        parsed_file.invalid_lines.push((i, owned));
                        proof {
                            assert(invalid_view(parsed_file.invalid_lines@) =~= parse_invalid(
                                glines.take(i as int + 1),
                            ));
                        }
                    },
                }
            }
            i = i + 1;
        }
        proof {
            assert(glines.take(n as int) =~= glines);
        }
        parsed_file
    }

    /// The pseudo-entry line offered by the menu, centered between separator
    /// runs sized from the current column widths.
    pub fn add_bookmark_option_string(&self) -> (r: String)
        requires
            self.longest_title as int + self.longest_category as int + 11 <= usize::MAX,
        ensures
            r@ == option_string_spec(self.longest_title as nat, self.longest_category as nat),
    {
        let label_len = ADD_BOOKMARK.unicode_len();
        let total = self.longest_title + self.longest_category + 11;
        let padding = if total >= label_len {
            total - label_len
        } else {
            0
        };
        let left_padding = padding / 2;
        let right_padding = padding - left_padding;
        let leftv = crate::text::repeat_char(SEPARATOR_LINE_SYMBOL, left_padding);
        let mut s = crate::text::chars_to_string(&leftv);
        s.append(ADD_BOOKMARK);
        let rightv = crate::text::repeat_char(SEPARATOR_LINE_SYMBOL, right_padding);
        let rs = crate::text::chars_to_string(&rightv);
        s.append(rs.as_str());
        s
    }
}

/// The pseudo-entry's text for given column widths.
pub open spec fn option_string_spec(lt: nat, lc: nat) -> Seq<char> {
    let padding = crate::bookmark::diff_or_zero(lt + lc + 11, ADD_BOOKMARK@.len());
    let left = padding / 2;
    let right = (padding - left) as nat;
    crate::text::repeated(SEPARATOR_LINE_SYMBOL, left) + ADD_BOOKMARK@ + crate::text::repeated(
        SEPARATOR_LINE_SYMBOL,
        right,
    )
}

/// CATEGORY SET law: in a consistent index the sorted list holds exactly the
/// distinct categories of the live records, each exactly once, in comparator
/// order.
pub proof fn lemma_category_set_matches_records(pf: &ParsedFile)
    requires
        pf.wf(),
    ensures
        forall|i: int, j: int|
            0 <= i < j < pf.categories@.len() ==> alpha_le(
                pf.categories@[i]@,
                pf.categories@[j]@,
            ),
        forall|n: Seq<char>| #[trigger] name_count(pf.categories@, n) <= 1,
        forall|n: Seq<char>|
            #[trigger] name_count(pf.categories@, n) > 0 <==> cat_count(pf.recs(), n) > 0,
{
}

/// LONGEST TITLE law: in a consistent index the tracked longest title equals
/// the maximum title width over the live records, or zero when there is none.
pub proof fn lemma_longest_title_is_max(pf: &ParsedFile)
    requires
        pf.wf(),
    ensures
        forall|i: int|
            0 <= i < pf.recs().len() ==> (#[trigger] pf.recs()[i].title.len())
                <= pf.longest_title,
        pf.longest_title == 0 || exists|i: int|
            0 <= i < pf.recs().len() && (#[trigger] pf.recs()[i].title.len())
                == pf.longest_title,
{
    if pf.longest_title > 0 {
        lemma_width_count_nonzero(pf.recs(), pf.longest_title as nat);
    }
}

} // verus!
