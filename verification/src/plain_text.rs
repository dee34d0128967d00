//! The rendering cache: the two derived text blobs (the bookmark listing and
//! the category listing), each tagged with a monotonic version counter, plus
//! the dirty flag that decides whether anything is written back at exit.

use vstd::prelude::*;

verus! {

use core::cmp::Ordering;
use vstd::multiset::Multiset;
use crate::bookmark::{Bookmark, BookmarkView, encode_line};
use crate::parsed_file::ParsedFile;
use crate::text::{alpha_cmp, chars_to_string, lex_compare, normalized_chars, repeat_char, repeated, str_eq};
use crate::SEPARATOR_LINE_SYMBOL;

/// The cache's mathematical content.
pub ghost struct PlainTextView {
    pub bookmarks: Seq<char>,
    pub previous_bookmarks_version: int,
    pub current_bookmarks_version: int,
    pub bookmarks_initialized: bool,
    pub categories: Seq<char>,
    pub previous_categories_version: int,
    pub current_categories_version: int,
    pub categories_initialized: bool,
    pub edited: bool,
}

/// A version counter advances by one until it reaches the machine limit,
/// where it stays.
pub open spec fn bump(v: int) -> int {
    if v < usize::MAX {
        v + 1
    } else {
        v
    }
}

/// The view after the bookmark listing's version advances.
pub open spec fn with_bookmarks_bumped(v: PlainTextView) -> PlainTextView {
    PlainTextView { current_bookmarks_version: bump(v.current_bookmarks_version), ..v }
}

/// The view after the category listing's version advances.
pub open spec fn with_categories_bumped(v: PlainTextView) -> PlainTextView {
    PlainTextView { current_categories_version: bump(v.current_categories_version), ..v }
}

/// The view after the cache is marked dirty.
pub open spec fn with_edited(v: PlainTextView) -> PlainTextView {
    PlainTextView { edited: true, ..v }
}

pub struct PlainText {
    pub bookmarks: String,
    pub previous_bookmarks_version: usize,
    pub current_bookmarks_version: usize,
    pub bookmarks_initialized: bool,
    pub categories: String,
    pub previous_categories_version: usize,
    pub current_categories_version: usize,
    pub categories_initialized: bool,
    pub edited: bool,
}

impl View for PlainText {
    type V = PlainTextView;

    open spec fn view(&self) -> PlainTextView {
        PlainTextView {
            bookmarks: self.bookmarks@,
            previous_bookmarks_version: self.previous_bookmarks_version as int,
            current_bookmarks_version: self.current_bookmarks_version as int,
            bookmarks_initialized: self.bookmarks_initialized,
            categories: self.categories@,
            previous_categories_version: self.previous_categories_version as int,
            current_categories_version: self.current_categories_version as int,
            categories_initialized: self.categories_initialized,
            edited: self.edited,
        }
    }
}

impl PlainText {
    pub fn new() -> (r: Self)
        ensures
            r@.bookmarks == Seq::<char>::empty(),
            r@.previous_bookmarks_version == 0,
            r@.current_bookmarks_version == 0,
            !r@.bookmarks_initialized,
            r@.categories == Seq::<char>::empty(),
            r@.previous_categories_version == 0,
            r@.current_categories_version == 0,
            !r@.categories_initialized,
            !r@.edited,
    {
        Self {
            bookmarks: String::new(),
            previous_bookmarks_version: 0,
            current_bookmarks_version: 0,
            bookmarks_initialized: false,
            categories: String::new(),
            previous_categories_version: 0,
            current_categories_version: 0,
            categories_initialized: false,
            edited: false,
        }
    }

    pub fn bookmarks(&self) -> (r: &str)
        ensures
            r@ == self@.bookmarks,
    {
        self.bookmarks.as_str()
    }

    pub fn categories(&self) -> (r: &str)
        ensures
            r@ == self@.categories,
    {
        self.categories.as_str()
    }

    pub fn edited(&self) -> (r: bool)
        ensures
            r == self@.edited,
    {
        self.edited
    }

    pub fn set_edited_true(&mut self)
        ensures
            final(self)@ == with_edited(old(self)@),
    {
        self.edited = true;
    }

    pub fn increment_bookmarks_version(&mut self)
        ensures
            final(self)@ == with_bookmarks_bumped(old(self)@),
    {
        if self.current_bookmarks_version < usize::MAX {
            self.current_bookmarks_version = self.current_bookmarks_version + 1;
        }
    }

    pub fn increment_categories_version(&mut self)
        ensures
            final(self)@ == with_categories_bumped(old(self)@),
    {
        if self.current_categories_version < usize::MAX {
            self.current_categories_version = self.current_categories_version + 1;
        }
    }

    /// Hands the cache the raw text of the bookmark file; the surrounding
    /// code reads the file itself.
    pub fn set_bookmarks(&mut self, text: String)
        ensures
            final(self)@ == (PlainTextView { bookmarks: text@, ..old(self)@ }),
    {
        self.bookmarks = text;
    }

    /// Orders two strings by their alphanumeric content alone: punctuation,
    /// whitespace and case never affect the order.
    pub fn alphabetic_sort(a: &str, b: &str) -> (r: Ordering)
        ensures
            r == alpha_cmp(a@, b@),
    {
        let na = normalized_chars(a);
        let nb = normalized_chars(b);
        lex_compare(&na, &nb)
    }
}


// ---------------------------------------------------------------------------
// The rendered bookmark listing
// ---------------------------------------------------------------------------

/// The listing's record order: by category, then by title, both under the
/// alphanumeric comparator.
pub open spec fn record_le(a: BookmarkView, b: BookmarkView) -> bool {
    ||| alpha_cmp(a.category, b.category) == Ordering::Less
    ||| (alpha_cmp(a.category, b.category) == Ordering::Equal && alpha_cmp(a.title, b.title)
        != Ordering::Greater)
}

pub open spec fn record_sorted(s: Seq<BookmarkView>) -> bool {
    forall|i: int, j: int| 0 <= i < j < s.len() ==> record_le(s[i], s[j])
}

pub proof fn lemma_record_le_total(a: BookmarkView, b: BookmarkView)
    ensures
        record_le(a, b) || record_le(b, a),
{
    crate::text::lemma_lex_cmp_flip(
        crate::text::normalize(a.category),
        crate::text::normalize(b.category),
    );
    crate::text::lemma_lex_cmp_flip(
        crate::text::normalize(b.category),
        crate::text::normalize(a.category),
    );
    crate::text::lemma_lex_cmp_flip(
        crate::text::normalize(a.title),
        crate::text::normalize(b.title),
    );
    crate::text::lemma_lex_cmp_flip(
        crate::text::normalize(b.title),
        crate::text::normalize(a.title),
    );
    if alpha_cmp(a.category, b.category) == Ordering::Equal {
        crate::text::lemma_lex_cmp_equal_is_eq(
            crate::text::normalize(a.category),
            crate::text::normalize(b.category),
        );
        crate::text::lemma_lex_cmp_refl(crate::text::normalize(a.category));
    }
}

pub proof fn lemma_record_le_trans(a: BookmarkView, b: BookmarkView, c: BookmarkView)
    requires
        record_le(a, b),
        record_le(b, c),
    ensures
        record_le(a, c),
{
    let na = crate::text::normalize(a.category);
    let nb = crate::text::normalize(b.category);
    let nc = crate::text::normalize(c.category);
    if alpha_cmp(a.category, b.category) == Ordering::Equal {
        crate::text::lemma_lex_cmp_equal_is_eq(na, nb);
    }
    if alpha_cmp(b.category, c.category) == Ordering::Equal {
        crate::text::lemma_lex_cmp_equal_is_eq(nb, nc);
    }
    if alpha_cmp(a.category, b.category) == Ordering::Less && alpha_cmp(b.category, c.category)
        == Ordering::Less {
        crate::text::lemma_lex_cmp_less_trans(na, nb, nc);
    }
    if alpha_cmp(a.category, c.category) == Ordering::Equal {
        crate::text::lemma_lex_le_trans(
            crate::text::normalize(a.title),
            crate::text::normalize(b.title),
            crate::text::normalize(c.title),
        );
    }
}

fn record_le_exec(a: &Bookmark, b: &Bookmark) -> (r: bool)
    ensures
        r == record_le(a@, b@),
{
    let c = PlainText::alphabetic_sort(a.category(), b.category());
    match c {
        Ordering::Less => true,
        Ordering::Greater => false,
        Ordering::Equal => {
            let tc = PlainText::alphabetic_sort(a.title(), b.title());
            !matches!(tc, Ordering::Greater)
        },
    }
}

/// The records in listing order: an insertion sort by the pair comparator.
fn sort_records(records: &Vec<Bookmark>) -> (r: Vec<Bookmark>)
    ensures
        record_sorted(r.deep_view()),
        r.deep_view().to_multiset() == records.deep_view().to_multiset(),
        r.deep_view().len() == records.deep_view().len(),
{
    let n = records.len();
    let mut out: Vec<Bookmark> = Vec::new();
    let mut k: usize = 0;
    proof {
        assert(out.deep_view() =~~= records.deep_view().take(0));
    }
    while k < n
        invariant
            n == records@.len(),
            k <= n,
            record_sorted(out.deep_view()),
            out.deep_view().to_multiset() == records.deep_view().take(k as int).to_multiset(),
            out.deep_view().len() == k,
        decreases n - k,
    {
        let ghost pre = out.deep_view();
        let b = records[k].clone();
        let on = out.len();
        let mut p: usize = 0;
        while p < on && record_le_exec(&out[p], &b)
            invariant
                n == records@.len(),
                k < n,
                on == out@.len(),
                out.deep_view().len() == on,
                p <= on,
                b@ == records.deep_view()[k as int],
                forall|j: int| 0 <= j < p ==> record_le(out.deep_view()[j], b@),
            decreases on - p,
        {
            proof {
                assert(out.deep_view()[p as int] == out@[p as int]@);
            }
            p = p + 1;
        }
        proof {
            assert(p < on ==> out.deep_view()[p as int] == out@[p as int]@);
        }
        out.insert(p, b);
        k = k + 1;
        proof {
            let post = out.deep_view();
            assert(post =~~= pre.insert(p as int, records.deep_view()[(k - 1) as int]));
            let bv = records.deep_view()[(k - 1) as int];
            // the inserted record respects the order on both sides
            assert forall|i: int, j: int| 0 <= i < j < post.len() implies record_le(
                post[i],
                post[j],
            ) by {
                let i2 = if i < p as int {
                    i
                } else {
                    i - 1
                };
                let j2 = if j < p as int {
                    j
                } else {
                    j - 1
                };
                if i == p as int && j > p as int {
                    // bv before a displaced element
                    assert(post[j] == pre[j2]);
                    if j2 == p as int {
                        lemma_record_le_total(pre[p as int], bv);
                    } else {
                        lemma_record_le_total(pre[p as int], bv);
                        lemma_record_le_trans(bv, pre[p as int], pre[j2]);
                    }
                } else if j == p as int {
                    assert(post[i] == pre[i2]);
                } else if i < p as int && j > p as int {
                    assert(post[i] == pre[i2]);
                    assert(post[j] == pre[j2]);
                } else {
                    assert(post[i] == pre[i2]);
                    assert(post[j] == pre[j2]);
                }
            }
            vstd::seq_lib::to_multiset_insert(pre, p as int, bv);
            assert(records.deep_view().take(k as int).drop_last() =~= records.deep_view().take(
                k as int - 1,
            ));
            vstd::seq_lib::to_multiset_build(
                records.deep_view().take(k as int - 1),
                bv,
            );
            assert(records.deep_view().take(k as int - 1).push(bv) =~= records.deep_view().take(
                k as int,
            ));
        }
    }
    proof {
        assert(records.deep_view().take(n as int) =~= records.deep_view());
    }
    out
}

/// The preserved lines by their original positions; a later entry for the
/// same position overrides an earlier one. Within one index lifetime a
/// preserved line keeps its slot through every re-render; across a write and
/// a fresh parse, separator lines occupy file lines of their own, so stored
/// positions can shift by the number of separators above them.
pub open spec fn invalid_map(v: Seq<(usize, String)>) -> Map<int, Seq<char>>
    decreases v.len(),
{
    if v.len() == 0 {
        Map::empty()
    } else {
        invalid_map(v.drop_last()).insert(v.last().0 as int, v.last().1@)
    }
}

proof fn lemma_invalid_map_at(v: Seq<(usize, String)>, i: int, k: int)
    requires
        0 <= k < v.len(),
        v[k].0 as int == i,
        forall|j: int| k < j < v.len() ==> v[j].0 as int != i,
    ensures
        invalid_map(v).contains_key(i),
        invalid_map(v)[i] == v[k].1@,
    decreases v.len(),
{
    if k == v.len() - 1 {
    } else {
        lemma_invalid_map_at(v.drop_last(), i, k);
    }
}

proof fn lemma_invalid_map_absent(v: Seq<(usize, String)>, i: int)
    requires
        forall|j: int| 0 <= j < v.len() ==> v[j].0 as int != i,
    ensures
        !invalid_map(v).contains_key(i),
    decreases v.len(),
{
    if v.len() > 0 {
        lemma_invalid_map_absent(v.drop_last(), i);
    }
}

/// The preserved line at this position, if any.
fn invalid_lookup<'a>(v: &'a Vec<(usize, String)>, i: usize) -> (r: Option<&'a String>)
    ensures
        match r {
            Some(s) => invalid_map(v@).contains_key(i as int) && invalid_map(v@)[i as int] == s@,
            None => !invalid_map(v@).contains_key(i as int),
        },
{
    let n = v.len();
    let mut k: usize = n;
    while k > 0
        invariant
            n == v@.len(),
            k <= n,
            forall|j: int| k <= j < n ==> v@[j].0 as int != i as int,
        decreases k,
    {
        k = k - 1;
        if v[k].0 == i {
            proof {
                lemma_invalid_map_at(v@, i as int, k as int);
            }
            return Some(&v[k].1);
        }
    }
    proof {
        lemma_invalid_map_absent(v@, i as int);
    }
    None
}

/// One separator line: dashes as wide as both columns, then a newline.
pub open spec fn separator_text(lt: nat, lc: nat) -> Seq<char> {
    repeated(SEPARATOR_LINE_SYMBOL, lt + lc + 8) + seq!['\n']
}

/// The listing: over slot positions, a preserved line keeps its slot,
/// records fill the remaining slots in sorted order, and a separator line
/// precedes every change of category between rendered records.
pub open spec fn render_slots(
    sorted: Seq<BookmarkView>,
    im: Map<int, Seq<char>>,
    total: int,
    i: int,
    cursor: int,
    last_cat: Option<Seq<char>>,
    lt: nat,
    lc: nat,
) -> Seq<char>
    decreases total - i,
{
    if i >= total {
        Seq::empty()
    } else if im.contains_key(i) {
        im[i] + seq!['\n'] + render_slots(sorted, im, total, i + 1, cursor, last_cat, lt, lc)
    } else if cursor < sorted.len() {
        let b = sorted[cursor];
        let sep: Seq<char> = match last_cat {
            Some(cprev) => if cprev != b.category {
                separator_text(lt, lc)
            } else {
                Seq::empty()
            },
            None => Seq::empty(),
        };
        sep + encode_line(b.title, b.category, b.url, lt, lc) + render_slots(
            sorted,
            im,
            total,
            i + 1,
            cursor + 1,
            Some(b.category),
            lt,
            lc,
        )
    } else {
        render_slots(sorted, im, total, i + 1, cursor, last_cat, lt, lc)
    }
}

/// The category listing: the sorted names, each on its own line.
pub open spec fn categories_text(cats: Seq<Seq<char>>) -> Seq<char>
    decreases cats.len(),
{
    if cats.len() == 0 {
        Seq::empty()
    } else {
        categories_text(cats.drop_last()) + cats.last() + seq!['\n']
    }
}

/// The bookmark cache needs no recomputation.
pub open spec fn bookmarks_cache_fresh(v: PlainTextView) -> bool {
    v.previous_bookmarks_version == v.current_bookmarks_version && v.bookmarks_initialized
}

/// The category cache needs no recomputation.
pub open spec fn categories_cache_fresh(v: PlainTextView) -> bool {
    v.previous_categories_version == v.current_categories_version && v.categories_initialized
}

impl PlainText {
    /// Regenerates the bookmark listing, but only when a mutation has
    /// advanced the version since the last rendering.
    pub fn update_bookmarks(&mut self, parsed_file: &ParsedFile)
        requires
            parsed_file.longest_title as int + parsed_file.longest_category as int + 8
                <= usize::MAX,
            parsed_file.bookmarks@.len() + parsed_file.invalid_lines@.len() <= usize::MAX,
        ensures
            bookmarks_cache_fresh(old(self)@) ==> *final(self) == *old(self),
            !bookmarks_cache_fresh(old(self)@) ==> exists|sorted: Seq<BookmarkView>|
                {
                    &&& #[trigger] sorted.to_multiset() == parsed_file.recs().to_multiset()
                    &&& record_sorted(sorted)
                    &&& final(self)@ == (PlainTextView {
                        bookmarks: render_slots(
                            sorted,
                            invalid_map(parsed_file.invalid_lines@),
                            parsed_file.bookmarks@.len() + parsed_file.invalid_lines@.len() as int,
                            0,
                            0,
                            None,
                            parsed_file.longest_title as nat,
                            parsed_file.longest_category as nat,
                        ),
                        previous_bookmarks_version: old(self)@.current_bookmarks_version,
                        bookmarks_initialized: true,
                        ..old(self)@
                    })
                },
    {
        if self.previous_bookmarks_version == self.current_bookmarks_version
            && self.bookmarks_initialized {
            return ;
        }
        let lt = parsed_file.longest_title;
        let lc = parsed_file.longest_category;
        let ghost glt = lt as nat;
        let ghost glc = lc as nat;
        let mut text = String::new();
        let mut sepv = repeat_char(SEPARATOR_LINE_SYMBOL, lt + lc + 8);
        sepv.push('\n');
        let sep = chars_to_string(&sepv);
        proof {
            assert(sep@ =~= separator_text(glt, glc));
        }
        let sorted = sort_records(&parsed_file.bookmarks);
        let ghost gsorted = sorted.deep_view();
        let ghost im = invalid_map(parsed_file.invalid_lines@);
        let total = parsed_file.bookmarks.len() + parsed_file.invalid_lines.len();
        let ghost whole = render_slots(gsorted, im, total as int, 0, 0, None, glt, glc);
        proof {
            assert(text@ + whole =~= whole);
        }
        let mut cursor: usize = 0;
        let mut i: usize = 0;
        let mut last_cat: Option<String> = None;
        let ghost mut glast: Option<Seq<char>> = None;
        while i < total
            invariant
                total as int == parsed_file.bookmarks@.len() + parsed_file.invalid_lines@.len(),
                im == invalid_map(parsed_file.invalid_lines@),
                gsorted == sorted.deep_view(),
                sorted@.len() == gsorted.len(),
                i <= total,
                cursor <= sorted@.len(),
                glt == lt as nat,
                glc == lc as nat,
                sep@ == separator_text(glt, glc),
                glast == (match last_cat {
                    Some(cprev) => Some(cprev@),
                    None => None::<Seq<char>>,
                }),
                text@ + render_slots(
                    gsorted,
                    im,
                    total as int,
                    i as int,
                    cursor as int,
                    glast,
                    glt,
                    glc,
                ) == whole,
            decreases total - i,
        {
            let ghost gi = i as int;
            match invalid_lookup(&parsed_file.invalid_lines, i) {
                Some(line) => {
                    text.append(line.as_str());
                    text.append("\n");
                    proof {
                        reveal_strlit("\n");
                        assert("\n"@ =~= seq!['\n']);
                        assert(text@ + render_slots(
                            gsorted,
                            im,
                            total as int,
                            gi + 1,
                            cursor as int,
                            glast,
                            glt,
                            glc,
                        ) =~= whole);
                    }
                },
                None => {
                    if cursor < sorted.len() {
                        let ghost gprev = glast;
                        let emit_sep = match &last_cat {
                            Some(cprev) => !str_eq(cprev.as_str(), sorted[cursor].category()),
                            None => false,
                        };
                        if emit_sep {
                            text.append(sep.as_str());
                        }
                        let line = sorted[cursor].to_line(lt, lc);
                        text.append(line.as_str());
                        last_cat = Some(sorted[cursor].category().to_owned());
                        proof {
                            assert(gsorted[cursor as int] == sorted@[cursor as int]@);
                            glast = Some(gsorted[cursor as int].category);
                        }
                        cursor = cursor + 1;
                        proof {
                            let b = gsorted[cursor as int - 1];
                            assert(render_slots(
                                gsorted,
                                im,
                                total as int,
                                gi,
                                cursor as int - 1,
                                gprev,
                                glt,
                                glc,
                            ) == (match gprev {
                                Some(cprev) => if cprev != b.category {
                                    separator_text(glt, glc)
                                } else {
                                    Seq::<char>::empty()
                                },
                                None => Seq::<char>::empty(),
                            }) + encode_line(b.title, b.category, b.url, glt, glc)
                                + render_slots(
                                gsorted,
                                im,
                                total as int,
                                gi + 1,
                                cursor as int,
                                Some(b.category),
                                glt,
                                glc,
                            ));
                            assert(text@ + render_slots(
                                gsorted,
                                im,
                                total as int,
                                gi + 1,
                                cursor as int,
                                glast,
                                glt,
                                glc,
                            ) =~= whole);
                        }
                    } else {
                        proof {
                            assert(render_slots(
                                gsorted,
                                im,
                                total as int,
                                gi,
                                cursor as int,
                                glast,
                                glt,
                                glc,
                            ) == render_slots(
                                gsorted,
                                im,
                                total as int,
                                gi + 1,
                                cursor as int,
                                glast,
                                glt,
                                glc,
                            ));
                        }
                    }
                },
            }
            i = i + 1;
        }
        proof {
            assert(text@ =~= whole);
        }
        self.bookmarks = text;
        self.previous_bookmarks_version = self.current_bookmarks_version;
        self.bookmarks_initialized = true;
        proof {
            assert(gsorted.to_multiset() == parsed_file.recs().to_multiset());
            assert(record_sorted(gsorted));
        }
    }

    /// Regenerates the category listing, but only when a mutation has
    /// advanced the version since the last rendering.
    pub fn update_categories(&mut self, parsed_file: &ParsedFile)
        ensures
            categories_cache_fresh(old(self)@) ==> *final(self) == *old(self),
            !categories_cache_fresh(old(self)@) ==> final(self)@ == (PlainTextView {
                categories: categories_text(parsed_file.categories.deep_view()),
                previous_categories_version: old(self)@.current_categories_version,
                categories_initialized: true,
                ..old(self)@
            }),
    {
        if self.previous_categories_version == self.current_categories_version
            && self.categories_initialized {
            return ;
        }
        let ghost gcats = parsed_file.categories.deep_view();
        let mut text = String::new();
        let n = parsed_file.categories.len();
        let mut k: usize = 0;
        proof {
            assert(gcats.take(0) =~= Seq::<Seq<char>>::empty());
        }
        while k < n
            invariant
                n == parsed_file.categories@.len(),
                gcats == parsed_file.categories.deep_view(),
                k <= n,
                text@ == categories_text(gcats.take(k as int)),
            decreases n - k,
        {
            text.append(parsed_file.categories[k].as_str());
            text.append("\n");
            k = k + 1;
            proof {
                reveal_strlit("\n");
                assert(gcats.take(k as int).drop_last() =~= gcats.take(k as int - 1));
                assert(gcats.take(k as int).last() == parsed_file.categories@[k as int - 1]@);
                assert(text@ =~= categories_text(gcats.take(k as int)));
            }
        }
        proof {
            assert(gcats.take(n as int) =~= gcats);
        }
        self.categories = text;
        self.previous_categories_version = self.current_categories_version;
        self.categories_initialized = true;
    }
}


// ---------------------------------------------------------------------------
// The listing, line by line
// ---------------------------------------------------------------------------

/// A record whose fields hold no newline renders on exactly one line.
pub open spec fn record_renders_one_line(b: BookmarkView) -> bool {
    &&& crate::text::newline_free(b.title)
    &&& crate::text::newline_free(b.category)
    &&& crate::text::newline_free(b.url)
}

/// The line a rendered record occupies: its encoded line without the
/// terminating newline.
pub open spec fn record_line(b: BookmarkView, lt: nat, lc: nat) -> Seq<char> {
    encode_line(b.title, b.category, b.url, lt, lc).drop_last()
}

/// An encoded record line is its content plus one newline, and the content
/// of a newline-free record spans no further lines.
proof fn lemma_record_line_single(b: BookmarkView, lt: nat, lc: nat)
    requires
        record_renders_one_line(b),
    ensures
        encode_line(b.title, b.category, b.url, lt, lc) == record_line(b, lt, lc) + seq!['\n'],
        crate::text::newline_free(record_line(b, lt, lc)),
        record_line(b, lt, lc).len() > 0,
        record_line(b, lt, lc).last() == crate::bookmark::SEGMENT_END,
{
    let content = seq![
        crate::bookmark::SEGMENT_START,
        crate::bookmark::TITLE_MARKER,
        crate::bookmark::SEGMENT_END,
        crate::bookmark::SEGMENT_START,
    ] + crate::bookmark::field_for_line(b.title, crate::TITLE_MAX_LENGTH as nat) + seq![
        crate::bookmark::SEGMENT_END,
    ] + repeated(' ', crate::bookmark::pad_amount(b.title.len(), lt, crate::TITLE_MAX_LENGTH as nat))
        + seq![
        crate::bookmark::SEGMENT_START,
        crate::bookmark::CATEGORY_MARKER,
        crate::bookmark::SEGMENT_END,
        crate::bookmark::SEGMENT_START,
    ] + crate::bookmark::field_for_line(b.category, crate::CATEGORY_MAX_LENGTH as nat) + seq![
        crate::bookmark::SEGMENT_END,
    ] + repeated(
        ' ',
        crate::bookmark::pad_amount(b.category.len(), lc, crate::CATEGORY_MAX_LENGTH as nat),
    ) + seq![
        crate::bookmark::SEGMENT_START,
        crate::bookmark::URL_MARKER,
        crate::bookmark::SEGMENT_END,
        crate::bookmark::SEGMENT_START,
    ] + crate::bookmark::field_for_line(b.url, crate::URL_MAX_LENGTH as nat) + seq![
        crate::bookmark::SEGMENT_END,
    ];
    let line = encode_line(b.title, b.category, b.url, lt, lc);
    assert(line =~= content + seq!['\n']);
    assert(record_line(b, lt, lc) =~= content);
    assert(crate::text::newline_free(content)) by {
        assert forall|i: int| 0 <= i < content.len() implies content[i] != '\n' by {}
    }
    assert(content.last() == crate::bookmark::SEGMENT_END);
}

/// The listing body as lines: a preserved line keeps its slot verbatim,
/// records fill the remaining slots in sorted order, and one separator line
/// stands wherever the category changes between rendered records.
pub open spec fn slot_lines(
    sorted: Seq<BookmarkView>,
    im: Map<int, Seq<char>>,
    total: int,
    i: int,
    cursor: int,
    last_cat: Option<Seq<char>>,
    lt: nat,
    lc: nat,
) -> Seq<Seq<char>>
    decreases total - i,
{
    if i >= total {
        Seq::empty()
    } else if im.contains_key(i) {
        seq![im[i]] + slot_lines(sorted, im, total, i + 1, cursor, last_cat, lt, lc)
    } else if cursor < sorted.len() {
        let b = sorted[cursor];
        let sep: Seq<Seq<char>> = match last_cat {
            Some(cprev) => if cprev != b.category {
                seq![repeated(SEPARATOR_LINE_SYMBOL, lt + lc + 8)]
            } else {
                Seq::empty()
            },
            None => Seq::empty(),
        };
        sep + seq![record_line(b, lt, lc)] + slot_lines(
            sorted,
            im,
            total,
            i + 1,
            cursor + 1,
            Some(b.category),
            lt,
            lc,
        )
    } else {
        slot_lines(sorted, im, total, i + 1, cursor, last_cat, lt, lc)
    }
}

/// PRESERVED SLOTS law: split back into lines, the rendered listing is
/// exactly the slot fold — every preserved line stands verbatim at its
/// stored slot, never re-sorted, while the records' lines fill the
/// remaining slots in sorted order.
pub proof fn lemma_render_slots_lines(
    sorted: Seq<BookmarkView>,
    im: Map<int, Seq<char>>,
    total: int,
    i: int,
    cursor: int,
    last_cat: Option<Seq<char>>,
    lt: nat,
    lc: nat,
)
    requires
        0 <= cursor,
        forall|k: int| 0 <= k < sorted.len() ==> record_renders_one_line(#[trigger] sorted[k]),
        forall|k: int| #[trigger] im.contains_key(k) ==> crate::text::newline_free(im[k]),
        forall|k: int| #[trigger] im.contains_key(k) && im[k].len() > 0 ==> im[k].last() != '\r',
    ensures
        crate::text::lines_of(render_slots(sorted, im, total, i, cursor, last_cat, lt, lc))
            == slot_lines(sorted, im, total, i, cursor, last_cat, lt, lc),
    decreases total - i,
{
    if i >= total {
        assert(crate::text::lines_of(Seq::<char>::empty()) =~= Seq::<Seq<char>>::empty());
    } else if im.contains_key(i) {
        lemma_render_slots_lines(sorted, im, total, i + 1, cursor, last_cat, lt, lc);
        let rest = render_slots(sorted, im, total, i + 1, cursor, last_cat, lt, lc);
        crate::text::lemma_lines_of_one(im[i], rest);
        assert(im[i] + seq!['\n'] + rest =~= render_slots(
            sorted,
            im,
            total,
            i,
            cursor,
            last_cat,
            lt,
            lc,
        ));
    } else if cursor < sorted.len() {
        lemma_render_slots_lines(sorted, im, total, i + 1, cursor + 1, Some(
            sorted[cursor].category,
        ), lt, lc);
        let b = sorted[cursor];
        let rest = render_slots(sorted, im, total, i + 1, cursor + 1, Some(b.category), lt, lc);
        lemma_record_line_single(b, lt, lc);
        crate::text::lemma_lines_of_one(record_line(b, lt, lc), rest);
        let emit_sep = match last_cat {
            Some(cprev) => cprev != b.category,
            None => false,
        };
        if emit_sep {
            let dash = repeated(SEPARATOR_LINE_SYMBOL, lt + lc + 8);
            assert(crate::text::newline_free(dash)) by {
                assert forall|m: int| 0 <= m < dash.len() implies dash[m] != '\n' by {}
            }
            assert(dash.last() == SEPARATOR_LINE_SYMBOL);
            crate::text::lemma_lines_of_one(
                dash,
                encode_line(b.title, b.category, b.url, lt, lc) + rest,
            );
            assert(dash + seq!['\n'] + (encode_line(b.title, b.category, b.url, lt, lc) + rest)
                =~= render_slots(sorted, im, total, i, cursor, last_cat, lt, lc));
            assert(record_line(b, lt, lc) + seq!['\n'] + rest =~= encode_line(
                b.title,
                b.category,
                b.url,
                lt,
                lc,
            ) + rest);
            assert(crate::text::lines_of(render_slots(sorted, im, total, i, cursor, last_cat, lt, lc))
                =~~= slot_lines(sorted, im, total, i, cursor, last_cat, lt, lc));
        } else {
            assert(record_line(b, lt, lc) + seq!['\n'] + rest =~= render_slots(
                sorted,
                im,
                total,
                i,
                cursor,
                last_cat,
                lt,
                lc,
            ));
            assert(crate::text::lines_of(render_slots(sorted, im, total, i, cursor, last_cat, lt, lc))
                =~~= slot_lines(sorted, im, total, i, cursor, last_cat, lt, lc));
        }
    } else {
        lemma_render_slots_lines(sorted, im, total, i + 1, cursor, last_cat, lt, lc);
    }
}


} // verus!
