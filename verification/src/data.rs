//! The two halves of the engine joined: the record index and the rendering
//! cache, driven through one value. The surrounding code reads the file once,
//! hands the text in here, and writes back only what `write` returns.

use vstd::prelude::*;

verus! {

use crate::bookmark::{Bookmark, BookmarkView};
use crate::parsed_file::{
    ParsedFile,
    cache_after_mutation,
    invalid_view,
    parse_invalid,
    parse_records,
    remove_url,
    upsert,
    url_lookup,
    cat_count,
};
use crate::plain_text::{
    PlainText,
    PlainTextView,
    bookmarks_cache_fresh,
    invalid_map,
    record_sorted,
    render_slots,
};
use crate::text::lines_of;

pub struct Data {
    pub plain_text: PlainText,
    pub parsed_file: ParsedFile,
}

impl Data {
    /// Builds the index and the cache from the raw text of the bookmark
    /// file; the caller has already read the file.
    pub fn new(bookmarks_text: &str) -> (r: Self)
        ensures
            r.parsed_file.wf(),
            r.parsed_file.recs() == parse_records(lines_of(bookmarks_text@)),
            invalid_view(r.parsed_file.invalid_lines@) == parse_invalid(
                lines_of(bookmarks_text@),
            ),
            r.plain_text@ == (PlainTextView {
                bookmarks: bookmarks_text@,
                previous_bookmarks_version: 0,
                current_bookmarks_version: 0,
                bookmarks_initialized: false,
                categories: Seq::<char>::empty(),
                previous_categories_version: 0,
                current_categories_version: 0,
                categories_initialized: false,
                edited: false,
            }),
    {
        let mut plain_text = PlainText::new();
        plain_text.set_bookmarks(bookmarks_text.to_owned());
        let parsed_file = ParsedFile::new(bookmarks_text);
        Data { plain_text, parsed_file }
    }

    /// The bookmark listing, regenerated first if a mutation outdated it.
    pub fn plain_text_bookmarks(&mut self) -> (r: &str)
        requires
            old(self).parsed_file.longest_title as int + old(self).parsed_file.longest_category
                as int + 8 <= usize::MAX,
            old(self).parsed_file.bookmarks@.len() + old(self).parsed_file.invalid_lines@.len()
                <= usize::MAX,
        ensures
            final(self).parsed_file == old(self).parsed_file,
            r@ == final(self).plain_text@.bookmarks,
            bookmarks_cache_fresh(old(self).plain_text@) ==> final(self).plain_text == old(self).plain_text,
            !bookmarks_cache_fresh(old(self).plain_text@) ==> exists|sorted: Seq<BookmarkView>|
                {
                    &&& #[trigger] sorted.to_multiset() == old(self).parsed_file.recs().to_multiset()
                    &&& record_sorted(sorted)
                    &&& final(self).plain_text@ == (PlainTextView {
                        bookmarks: render_slots(
                            sorted,
                            invalid_map(old(self).parsed_file.invalid_lines@),
                            old(self).parsed_file.bookmarks@.len() + old(self).parsed_file.invalid_lines@.len() as int,
                            0,
                            0,
                            None,
                            old(self).parsed_file.longest_title as nat,
                            old(self).parsed_file.longest_category as nat,
                        ),
                        previous_bookmarks_version: old(self).plain_text@.current_bookmarks_version,
                        bookmarks_initialized: true,
                        ..old(self).plain_text@
                    })
                },
    {
        self.plain_text.update_bookmarks(&self.parsed_file);
        self.plain_text.bookmarks()
    }

    /// The category listing, regenerated first if a mutation outdated it.
    pub fn plain_text_categories(&mut self) -> (r: &str)
        ensures
            final(self).parsed_file == old(self).parsed_file,
            r@ == final(self).plain_text@.categories,
            crate::plain_text::categories_cache_fresh(old(self).plain_text@) ==> final(self).plain_text == old(self).plain_text,
            !crate::plain_text::categories_cache_fresh(old(self).plain_text@) ==> final(self).plain_text@ == (PlainTextView {
                categories: crate::plain_text::categories_text(
                    old(self).parsed_file.categories.deep_view(),
                ),
                previous_categories_version: old(self).plain_text@.current_categories_version,
                categories_initialized: true,
                ..old(self).plain_text@
            }),
    {
        self.plain_text.update_categories(&self.parsed_file);
        self.plain_text.categories()
    }

    /// The text to persist: `None` when nothing was ever mutated, otherwise
    /// the bookmark listing after a forced re-rendering of the live index.
    /// The caller writes it to the file.
    pub fn write(&mut self) -> (r: Option<String>)
        requires
            old(self).parsed_file.longest_title as int + old(self).parsed_file.longest_category
                as int + 8 <= usize::MAX,
            old(self).parsed_file.bookmarks@.len() + old(self).parsed_file.invalid_lines@.len()
                <= usize::MAX,
        ensures
            final(self).parsed_file == old(self).parsed_file,
            !old(self).plain_text@.edited ==> r is None && *final(self) == *old(self),
            old(self).plain_text@.edited ==> (r matches Some(text) && text@ == final(self).plain_text@.bookmarks),
            // the re-render is forced: the returned text is the current
            // index's own rendering, never a leftover of an earlier state
            old(self).plain_text@.edited ==> bookmarks_cache_fresh(final(self).plain_text@),
            old(self).plain_text@.edited && bookmarks_cache_fresh(old(self).plain_text@)
                ==> final(self).plain_text == old(self).plain_text,
            old(self).plain_text@.edited && !bookmarks_cache_fresh(old(self).plain_text@)
                ==> exists|sorted: Seq<BookmarkView>|
                {
                    &&& #[trigger] sorted.to_multiset() == old(
                        self,
                    ).parsed_file.recs().to_multiset()
                    &&& record_sorted(sorted)
                    &&& final(self).plain_text@ == (PlainTextView {
                        bookmarks: render_slots(
                            sorted,
                            invalid_map(old(self).parsed_file.invalid_lines@),
                            old(self).parsed_file.bookmarks@.len() + old(
                                self,
                            ).parsed_file.invalid_lines@.len() as int,
                            0,
                            0,
                            None,
                            old(self).parsed_file.longest_title as nat,
                            old(self).parsed_file.longest_category as nat,
                        ),
                        previous_bookmarks_version: old(
                            self,
                        ).plain_text@.current_bookmarks_version,
                        bookmarks_initialized: true,
                        ..old(self).plain_text@
                    })
                },
    {
        if !self.plain_text.edited() {
            return None;
        }
        self.plain_text.update_bookmarks(&self.parsed_file);
        Some(self.plain_text.bookmarks().to_owned())
    }

    /// Stores a record. With `old_bookmark` given, the old identity leaves
    /// first; handing in the unchanged record is a no-op that keeps the cache
    /// clean and its versions still.
    pub fn set_bookmark(&mut self, new_bookmark: Bookmark, old_bookmark: Option<Bookmark>)
        requires
            old(self).parsed_file.wf(),
            old(self).parsed_file.recs().len() < usize::MAX,
        ensures
            final(self).parsed_file.wf(),
            final(self).parsed_file.invalid_lines == old(self).parsed_file.invalid_lines,
            (match old_bookmark {
                Some(o) => o@ == new_bookmark@,
                None => false,
            }) ==> *final(self) == *old(self),
            old_bookmark is None ==> {
                &&& final(self).parsed_file.recs() == upsert(
                    old(self).parsed_file.recs(),
                    new_bookmark@,
                )
                &&& final(self).plain_text@ == cache_after_mutation(
                    old(self).plain_text@,
                    final(self).parsed_file.categories.deep_view() != old(
                        self,
                    ).parsed_file.categories.deep_view(),
                )
            },
            (match old_bookmark {
                Some(o) => o@ != new_bookmark@,
                None => false,
            }) ==> ({
                let o = old_bookmark->0;
                let mid = remove_url(old(self).parsed_file.recs(), o@.url);
                &&& final(self).parsed_file.recs() == upsert(mid, new_bookmark@)
                &&& final(self).plain_text@ == cache_after_mutation(
                    old(self).plain_text@,
                    final(self).parsed_file.categories.deep_view() != old(
                        self,
                    ).parsed_file.categories.deep_view(),
                )
            }),
    {
        match old_bookmark {
            Some(o) => {
                self.parsed_file.modify_bookmark(&mut self.plain_text, new_bookmark, &o);
            },
            None => {
                self.parsed_file.add_bookmark(&mut self.plain_text, new_bookmark);
            },
        }
    }

    /// Removes the record keyed by this URL; an absent URL changes nothing.
    pub fn remove_bookmark(&mut self, url: &str)
        requires
            old(self).parsed_file.wf(),
        ensures
            final(self).parsed_file.wf(),
            final(self).parsed_file.invalid_lines == old(self).parsed_file.invalid_lines,
            url_lookup(old(self).parsed_file.recs(), url@) is None ==> *final(self) == *old(self),
            url_lookup(old(self).parsed_file.recs(), url@) matches Some(bv) ==> {
                &&& final(self).parsed_file.recs() == remove_url(
                    old(self).parsed_file.recs(),
                    url@,
                )
                &&& final(self).plain_text@ == cache_after_mutation(
                    old(self).plain_text@,
                    cat_count(old(self).parsed_file.recs(), bv.category) == 1,
                )
            },
    {
        self.parsed_file.remove_bookmark(&mut self.plain_text, url);
    }
}

} // verus!
