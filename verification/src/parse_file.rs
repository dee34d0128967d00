//! An earlier, simpler shape of the record index: instead of width
//! histograms it keeps only the current and the previous maximum per field,
//! so removing a tied-longest record can under-report the remaining maximum.
//! It is kept with its exact behaviour; the histogram index is the corrected
//! design.

use vstd::prelude::*;

verus! {

use crate::bookmark::{Bookmark, BookmarkView, parse_line_spec};
use crate::parsed_file::{all_separator, line_skipped, remove_url, upsert, url_lookup, invalid_view};
use crate::parsed_file::{lemma_url_found, lemma_url_absent};
use crate::text::{lines_of, split_lines, trim_spec, trim_str};

/// The two-slot parse state, folded over the lines of a file.
pub ghost struct TwoSlotModel {
    pub recs: Seq<BookmarkView>,
    pub invalid: Seq<(int, Seq<char>)>,
    pub cats: Seq<Seq<char>>,
    pub previous_longest_title: int,
    pub longest_title: int,
    pub previous_longest_category: int,
    pub longest_category: int,
}

/// The two-slot update: a new maximum saves the old one as the fallback.
pub open spec fn two_slot_update(prev: int, cur: int, w: int) -> (int, int) {
    if w > cur {
        (cur, w)
    } else {
        (prev, cur)
    }
}

pub open spec fn cats_contains(cats: Seq<Seq<char>>, n: Seq<char>) -> bool {
    exists|i: int| 0 <= i < cats.len() && cats[i] == n
}

/// What parsing leaves behind: records keyed by URL, trimmed invalid lines
/// with a trailing newline, categories in order of first appearance, and the
/// two-slot width state.
pub open spec fn parse_two_slot(lines: Seq<Seq<char>>) -> TwoSlotModel
    decreases lines.len(),
{
    if lines.len() == 0 {
        TwoSlotModel {
            recs: Seq::empty(),
            invalid: Seq::empty(),
            cats: Seq::empty(),
            previous_longest_title: 0,
            longest_title: 0,
            previous_longest_category: 0,
            longest_category: 0,
        }
    } else {
        let m = parse_two_slot(lines.drop_last());
        let tl = trim_spec(lines.last());
        if line_skipped(tl) {
            m
        } else {
            match parse_line_spec(tl) {
                Some(bv) => {
                    let (plt, lt) = two_slot_update(
                        m.previous_longest_title,
                        m.longest_title,
                        bv.title.len() as int,
                    );
                    let (plc, lc) = two_slot_update(
                        m.previous_longest_category,
                        m.longest_category,
                        bv.category.len() as int,
                    );
                    TwoSlotModel {
                        recs: upsert(m.recs, bv),
                        invalid: m.invalid,
                        cats: if cats_contains(m.cats, bv.category) {
                            m.cats
                        } else {
                            m.cats.push(bv.category)
                        },
                        previous_longest_title: plt,
                        longest_title: lt,
                        previous_longest_category: plc,
                        longest_category: lc,
                    }
                },
                None => TwoSlotModel {
                    invalid: m.invalid.push((lines.len() - 1, tl + seq!['\n'])),
                    ..m
                },
            }
        }
    }
}

pub struct ParsedFile {
    pub bookmarks: Vec<Bookmark>,
    pub invalid_lines: Vec<(usize, String)>,
    pub categories: Vec<String>,
    pub previous_longest_title: usize,
    pub longest_title: usize,
    pub previous_longest_category: usize,
    pub longest_category: usize,
}

impl ParsedFile {
    /// Parses the stored text under the two-slot width scheme.
    pub fn new(file: &str) -> (r: Self)
        ensures
            ({
                let m = parse_two_slot(lines_of(file@));
                &&& r.bookmarks.deep_view() == m.recs
                &&& invalid_view(r.invalid_lines@) == m.invalid
                &&& r.categories.deep_view() == m.cats
                &&& r.previous_longest_title as int == m.previous_longest_title
                &&& r.longest_title as int == m.longest_title
                &&& r.previous_longest_category as int == m.previous_longest_category
                &&& r.longest_category as int == m.longest_category
            }),
    {
        let mut parsed_file = ParsedFile {
            bookmarks: Vec::new(),
            invalid_lines: Vec::new(),
            categories: Vec::new(),
            previous_longest_title: 0,
            longest_title: 0,
            previous_longest_category: 0,
            longest_category: 0,
        };
        proof {
            assert(parsed_file.bookmarks.deep_view() =~= Seq::<BookmarkView>::empty());
            assert(invalid_view(parsed_file.invalid_lines@) =~= Seq::<(int, Seq<char>)>::empty());
            assert(parsed_file.categories.deep_view() =~~= Seq::<Seq<char>>::empty());
        }
        let lines = split_lines(file);
        let n = lines.len();
        let ghost glines = lines.deep_view();
        proof {
            assert(glines.take(0) =~= Seq::<Seq<char>>::empty());
        }
        let mut i: usize = 0;
        while i < n
            invariant
                n == lines@.len(),
                glines == lines.deep_view(),
                glines == lines_of(file@),
                i <= n,
                ({
                    let m = parse_two_slot(glines.take(i as int));
                    &&& parsed_file.bookmarks.deep_view() == m.recs
                    &&& invalid_view(parsed_file.invalid_lines@) == m.invalid
                    &&& parsed_file.categories.deep_view() == m.cats
                    &&& parsed_file.previous_longest_title as int == m.previous_longest_title
                    &&& parsed_file.longest_title as int == m.longest_title
                    &&& parsed_file.previous_longest_category as int == m.previous_longest_category
                    &&& parsed_file.longest_category as int == m.longest_category
                }),
            decreases n - i,
        {
            let ghost prevrecs = parsed_file.bookmarks.deep_view();
            let ghost prevcats = parsed_file.categories.deep_view();
            let line = &lines[i];
            let trimmed = trim_str(line.as_str());
            proof {
                assert(glines[i as int] == lines@[i as int]@);
                assert(glines.take(i as int + 1).drop_last() =~= glines.take(i as int));
                assert(glines.take(i as int + 1).last() == glines[i as int]);
            }
            if all_separator(trimmed) {
                // blank, or a separator line of a previous rendering: dropped
            } else {
                match Bookmark::from_line(trimmed) {
                    Some(bookmark) => {
                        let title_char_count = bookmark.title().unicode_len();
                        if title_char_count > parsed_file.longest_title {
                            parsed_file.previous_longest_title = parsed_file.longest_title;
                            parsed_file.longest_title = title_char_count;
                        }
                        let category_char_count = bookmark.category().unicode_len();
                        if category_char_count > parsed_file.longest_category {
                            parsed_file.previous_longest_category = parsed_file.longest_category;
                            parsed_file.longest_category = category_char_count;
                        }
                        if !contains_name(&parsed_file.categories, bookmark.category()) {
                            let owned_cat = bookmark.category().to_owned();
                            parsed_file.categories.push(owned_cat);
                            proof {
                                assert(parsed_file.categories.deep_view() =~~= prevcats.push(
                                    bookmark@.category,
                                ));
                            }
                        }
                        match Self::find_url_index(&parsed_file.bookmarks, bookmark.url()) {
                            Some(idx) => {
                                proof {
                                    lemma_url_found(prevrecs, bookmark@.url, idx as int);
                                }
                                parsed_file.bookmarks.remove(idx);
                                proof {
                                    assert(parsed_file.bookmarks.deep_view() =~= prevrecs.remove(
                                        idx as int,
                                    ));
                                }
                            },
                            None => {
                                proof {
                                    lemma_url_absent(prevrecs, bookmark@.url);
                                }
                            },
                        }
                        let ghost midrecs = parsed_file.bookmarks.deep_view();
                        parsed_file.bookmarks.push(bookmark);
                        proof {
                            assert(parsed_file.bookmarks.deep_view() =~= midrecs.push(
                                parsed_file.bookmarks.deep_view().last(),
                            ));
                            assert(parsed_file.bookmarks.deep_view() =~= upsert(
                                prevrecs,
                                parsed_file.bookmarks.deep_view().last(),
                            ));
                        }
                    },
                    None => {
                        let mut owned = trimmed.to_owned();
                        owned.append("\n");
                        parsed_file.invalid_lines.push((i, owned));
                        proof {
                            reveal_strlit("\n");
                            assert("\n"@ =~= seq!['\n']);
                            assert(invalid_view(parsed_file.invalid_lines@) =~= parse_two_slot(
                                glines.take(i as int + 1),
                            ).invalid);
                        }
                    },
                }
            }
            i = i + 1;
        }
        proof {
            assert(glines.take(n as int) =~= glines);
        }
        parsed_file
    }

    fn find_url_index(store: &Vec<Bookmark>, url: &str) -> (r: Option<usize>)
        ensures
            match r {
                Some(i) => i < store@.len() && store.deep_view()[i as int].url == url@ && forall|
                    j: int,
                |
                    0 <= j < i ==> store.deep_view()[j].url != url@,
                None => forall|j: int| 0 <= j < store@.len() ==> store.deep_view()[j].url != url@,
            },
    {
        crate::parsed_file::ParsedFile::find_bookmark_index(store, url)
    }

    /// A longer title raises the maximum and saves the old one as fallback.
    pub fn update_longest_title(&mut self, title_char_count: usize)
        ensures
            ({
                let (p2, l2) = two_slot_update(
                    old(self).previous_longest_title as int,
                    old(self).longest_title as int,
                    title_char_count as int,
                );
                final(self).previous_longest_title as int == p2 && final(self).longest_title
                    as int == l2
            }),
            final(self).bookmarks == old(self).bookmarks,
            final(self).invalid_lines == old(self).invalid_lines,
            final(self).categories == old(self).categories,
            final(self).previous_longest_category == old(self).previous_longest_category,
            final(self).longest_category == old(self).longest_category,
    {
        if title_char_count > self.longest_title {
            self.previous_longest_title = self.longest_title;
            self.longest_title = title_char_count;
        }
    }

    /// A longer category raises the maximum and saves the old one as
    /// fallback.
    pub fn update_longest_category(&mut self, category_char_count: usize)
        ensures
            ({
                let (p2, l2) = two_slot_update(
                    old(self).previous_longest_category as int,
                    old(self).longest_category as int,
                    category_char_count as int,
                );
                final(self).previous_longest_category as int == p2 && final(self).longest_category as int == l2
            }),
            final(self).bookmarks == old(self).bookmarks,
            final(self).invalid_lines == old(self).invalid_lines,
            final(self).categories == old(self).categories,
            final(self).previous_longest_title == old(self).previous_longest_title,
            final(self).longest_title == old(self).longest_title,
    {
        if category_char_count > self.longest_category {
            self.previous_longest_category = self.longest_category;
            self.longest_category = category_char_count;
        }
    }

    /// Removing a title at least as wide as the maximum falls back to the
    /// saved previous maximum. This is the known approximation: with two
    /// records tied at the maximum it under-reports after one is removed.
    pub fn revert_longest_title(&mut self, title_char_count: usize)
        ensures
            final(self).longest_title == if title_char_count >= old(self).longest_title {
                old(self).previous_longest_title
            } else {
                old(self).longest_title
            },
            final(self).previous_longest_title == old(self).previous_longest_title,
            final(self).bookmarks == old(self).bookmarks,
            final(self).invalid_lines == old(self).invalid_lines,
            final(self).categories == old(self).categories,
            final(self).previous_longest_category == old(self).previous_longest_category,
            final(self).longest_category == old(self).longest_category,
    {
        if title_char_count >= self.longest_title {
            self.longest_title = self.previous_longest_title;
        }
    }

    /// The category-side counterpart of `revert_longest_title`, with the same
    /// known approximation.
    pub fn revert_longest_category(&mut self, category_char_count: usize)
        ensures
            final(self).longest_category == if category_char_count >= old(self).longest_category {
                old(self).previous_longest_category
            } else {
                old(self).longest_category
            },
            final(self).previous_longest_category == old(self).previous_longest_category,
            final(self).bookmarks == old(self).bookmarks,
            final(self).invalid_lines == old(self).invalid_lines,
            final(self).categories == old(self).categories,
            final(self).previous_longest_title == old(self).previous_longest_title,
            final(self).longest_title == old(self).longest_title,
    {
        if category_char_count >= self.longest_category {
            self.longest_category = self.previous_longest_category;
        }
    }
}

/// Whether the list already holds this name.
fn contains_name(cats: &Vec<String>, name: &str) -> (r: bool)
    ensures
        r == cats_contains(cats.deep_view(), name@),
{
    let n = cats.len();
    let mut k: usize = 0;
    while k < n
        invariant
            n == cats@.len(),
            k <= n,
            forall|j: int| 0 <= j < k ==> cats.deep_view()[j] != name@,
        decreases n - k,
    {
        proof {
            assert(cats.deep_view()[k as int] == cats@[k as int]@);
        }
        if crate::text::str_eq(cats[k].as_str(), name) {
            return true;
        }
        k = k + 1;
    }
    proof {
        if cats_contains(cats.deep_view(), name@) {
            let i = choose|i: int| 0 <= i < cats.deep_view().len() && cats.deep_view()[i] == name@;
        }
    }
    false
}

} // verus!
