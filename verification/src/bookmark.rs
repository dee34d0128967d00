//! One bookmark record and the line codec: a record is stored as one
//! physical line holding three delimiter-marked segments (title, category,
//! URL), each padded so that columns align across the whole listing.

use vstd::prelude::*;

verus! {

use crate::text::{
    chars_to_string,
    is_space,
    is_space_char,
    lemma_trim_end_by_take,
    lemma_trim_start_by_skip,
    repeated,
    str_chars,
    str_eq,
    trim_by,
    trim_end_by,
    trim_spec,
    trim_start_by,
};
use crate::{CATEGORY_MAX_LENGTH, TITLE_MAX_LENGTH, URL_MAX_LENGTH};

pub const TITLE_MARKER: char = 'T';

pub const CATEGORY_MARKER: char = 'C';

pub const URL_MARKER: char = 'U';

pub const SEGMENT_START: char = '{';

pub const SEGMENT_END: char = '}';

/// The mathematical content of a record: its three fields as character
/// sequences.
pub ghost struct BookmarkView {
    pub title: Seq<char>,
    pub category: Seq<char>,
    pub url: Seq<char>,
}

/// One bookmark: a title, a category and a URL. The URL is the record's
/// identity inside the index.
pub struct Bookmark {
    pub title: String,
    pub category: String,
    pub url: String,
}

impl View for Bookmark {
    type V = BookmarkView;

    open spec fn view(&self) -> BookmarkView {
        BookmarkView { title: self.title@, category: self.category@, url: self.url@ }
    }
}

impl DeepView for Bookmark {
    type V = BookmarkView;

    open spec fn deep_view(&self) -> BookmarkView {
        self.view()
    }
}

impl Clone for Bookmark {
    fn clone(&self) -> (r: Self)
        ensures
            r@ == self@,
    {
        Bookmark { title: self.title.clone(), category: self.category.clone(), url: self.url.clone() }
    }
}

impl PartialEq for Bookmark {
    fn eq(&self, other: &Bookmark) -> (r: bool) {
        str_eq(self.title.as_str(), other.title.as_str()) && str_eq(
            self.category.as_str(),
            other.category.as_str(),
        ) && str_eq(self.url.as_str(), other.url.as_str())
    }
}

impl vstd::std_specs::cmp::PartialEqSpecImpl for Bookmark {
    open spec fn obeys_eq_spec() -> bool {
        true
    }

    open spec fn eq_spec(&self, other: &Bookmark) -> bool {
        self@ == other@
    }
}

impl Bookmark {
    pub fn new(title: String, category: String, url: String) -> (r: Self)
        ensures
            r@ == (BookmarkView { title: title@, category: category@, url: url@ }),
    {
        Self { title, category, url }
    }

    /// The template record written into a freshly created bookmark file.
    pub fn default() -> (r: Self)
        ensures
            r@.title == "Project's Github"@,
            r@.category == "Development"@,
            r@.url == "https://github.com/vannrr/fmark"@,
    {
        let title = "Project's Github".to_owned();
        let category = "Development".to_owned();
        let url = "https://github.com/vannrr/fmark".to_owned();
        Self { title, category, url }
    }

    pub fn title(&self) -> (r: &str)
        ensures
            r@ == self@.title,
    {
        self.title.as_str()
    }

    pub fn category(&self) -> (r: &str)
        ensures
            r@ == self@.category,
    {
        self.category.as_str()
    }

    pub fn url(&self) -> (r: &str)
        ensures
            r@ == self@.url,
    {
        self.url.as_str()
    }
}

// ---------------------------------------------------------------------------
// Encoding
// ---------------------------------------------------------------------------

pub open spec fn diff_or_zero(a: nat, b: nat) -> nat {
    if a >= b {
        (a - b) as nat
    } else {
        0
    }
}

/// Padding written after a field: wide enough to align the next column even
/// when the longest field in the file is at the ceiling.
pub open spec fn pad_amount(count: nat, padding: nat, max: nat) -> nat {
    if padding >= max - 1 {
        diff_or_zero(max, count) + 1
    } else {
        diff_or_zero(padding, count) + 1
    }
}

/// A field as it appears inside its segment: truncated at the ceiling.
pub open spec fn field_for_line(f: Seq<char>, max: nat) -> Seq<char> {
    if f.len() > max {
        f.take(max as int)
    } else {
        f
    }
}

/// One encoded line: three marked segments with alignment padding and a
/// final newline.
pub open spec fn encode_line(t: Seq<char>, c: Seq<char>, u: Seq<char>, tp: nat, cp: nat) -> Seq<
    char,
> {
    seq![SEGMENT_START, TITLE_MARKER, SEGMENT_END, SEGMENT_START] + field_for_line(
        t,
        TITLE_MAX_LENGTH as nat,
    ) + seq![SEGMENT_END] + repeated(' ', pad_amount(t.len(), tp, TITLE_MAX_LENGTH as nat))
        + seq![SEGMENT_START, CATEGORY_MARKER, SEGMENT_END, SEGMENT_START] + field_for_line(
        c,
        CATEGORY_MAX_LENGTH as nat,
    ) + seq![SEGMENT_END] + repeated(' ', pad_amount(c.len(), cp, CATEGORY_MAX_LENGTH as nat))
        + seq![SEGMENT_START, URL_MARKER, SEGMENT_END, SEGMENT_START] + field_for_line(
        u,
        URL_MAX_LENGTH as nat,
    ) + seq![SEGMENT_END, '\n']
}

/// Pushes a field's characters, truncated at `max` characters.
fn push_field(out: &mut Vec<char>, f: &str, max: usize)
    ensures
        final(out)@ == old(out)@ + field_for_line(f@, max as nat),
{
    let fv = str_chars(f);
    let limit = if fv.len() > max {
        max
    } else {
        fv.len()
    };
    let ghost base = out@;
    let mut i: usize = 0;
    while i < limit
        invariant
            limit <= fv.len(),
            i <= limit,
            out@ == base + fv@.subrange(0, i as int),
        decreases limit - i,
    {
        out.push(fv[i]);
        i = i + 1;
        proof {
            assert(out@ =~= base + fv@.subrange(0, i as int));
        }
    }
    proof {
        if f@.len() > max as nat {
            assert(fv@.subrange(0, limit as int) =~= field_for_line(f@, max as nat));
        } else {
            assert(fv@.subrange(0, limit as int) =~= field_for_line(f@, max as nat));
        }
    }
}

/// Pushes `n` spaces.
fn push_spaces(out: &mut Vec<char>, n: usize)
    ensures
        final(out)@ == old(out)@ + repeated(' ', n as nat),
{
    let ghost base = out@;
    let mut i: usize = 0;
    while i < n
        invariant
            i <= n,
            out@ == base + repeated(' ', i as nat),
        decreases n - i,
    {
        out.push(' ');
        i = i + 1;
        proof {
            assert(out@ =~= base + repeated(' ', i as nat));
        }
    }
}

/// The padding after a field, as executable arithmetic.
fn pad_of(count: usize, padding: usize, max: usize) -> (r: usize)
    requires
        max >= 2,
        max <= 4096,
    ensures
        r == pad_amount(count as nat, padding as nat, max as nat),
{
    if padding >= max - 1 {
        let d = if max >= count {
            max - count
        } else {
            0
        };
        d + 1
    } else {
        let d = if padding >= count {
            padding - count
        } else {
            0
        };
        d + 1
    }
}

impl Bookmark {
    /// Encodes the record as one aligned line of the stored format.
    pub fn to_line(&self, title_padding: usize, category_padding: usize) -> (r: String)
        ensures
            r@ == encode_line(
                self@.title,
                self@.category,
                self@.url,
                title_padding as nat,
                category_padding as nat,
            ),
    {
        let mut out: Vec<char> = Vec::new();
        out.push(SEGMENT_START);
        out.push(TITLE_MARKER);
        out.push(SEGMENT_END);
        out.push(SEGMENT_START);
        push_field(&mut out, self.title.as_str(), TITLE_MAX_LENGTH);
        out.push(SEGMENT_END);
        let t_count = self.title.as_str().unicode_len();
        push_spaces(&mut out, pad_of(t_count, title_padding, TITLE_MAX_LENGTH));
        out.push(SEGMENT_START);
        out.push(CATEGORY_MARKER);
        out.push(SEGMENT_END);
        out.push(SEGMENT_START);
        push_field(&mut out, self.category.as_str(), CATEGORY_MAX_LENGTH);
        out.push(SEGMENT_END);
        let c_count = self.category.as_str().unicode_len();
        push_spaces(&mut out, pad_of(c_count, category_padding, CATEGORY_MAX_LENGTH));
        out.push(SEGMENT_START);
        out.push(URL_MARKER);
        out.push(SEGMENT_END);
        out.push(SEGMENT_START);
        push_field(&mut out, self.url.as_str(), URL_MAX_LENGTH);
        out.push(SEGMENT_END);
        out.push('\n');
        proof {
            assert(out@ =~= encode_line(
                self@.title,
                self@.category,
                self@.url,
                title_padding as nat,
                category_padding as nat,
            ));
        }
        chars_to_string(&out)
    }
}

// ---------------------------------------------------------------------------
// Decoding
// ---------------------------------------------------------------------------

pub open spec fn is_brace_char(c: char) -> bool {
    c == SEGMENT_START || c == SEGMENT_END
}

/// What a marked segment stands for: the segment with its braces and any
/// surrounding whitespace removed.
pub open spec fn seg_content(seg: Seq<char>) -> Seq<char> {
    trim_by(trim_by(seg, |c: char| is_brace_char(c)), |c: char| is_space_char(c))
}

/// The scanner's state: whether a segment is being captured, the segment so
/// far, and the completed segments.
pub ghost struct ScanState {
    pub capture: bool,
    pub seg: Seq<char>,
    pub segs: Seq<Seq<char>>,
}

pub open spec fn scan_init() -> ScanState {
    ScanState { capture: false, seg: Seq::empty(), segs: Seq::empty() }
}

/// One character of the segment scan. A `{` outside a segment opens one, a
/// newline abandons one, a `}` inside one completes it.
pub open spec fn scan_step(st: ScanState, c: char) -> ScanState {
    let st1 = if c == SEGMENT_START && !st.capture {
        ScanState { capture: true, seg: Seq::empty(), segs: st.segs }
    } else if c == '\n' && st.capture {
        ScanState { capture: false, seg: Seq::empty(), segs: st.segs }
    } else {
        st
    };
    let st2 = if st1.capture {
        ScanState { capture: st1.capture, seg: st1.seg.push(c), segs: st1.segs }
    } else {
        st1
    };
    if c == SEGMENT_END && st2.capture {
        ScanState {
            capture: false,
            seg: st2.seg,
            segs: if st2.seg.len() > 0 {
                st2.segs.push(st2.seg)
            } else {
                st2.segs
            },
        }
    } else {
        st2
    }
}

pub open spec fn scan_chars(s: Seq<char>, st: ScanState) -> ScanState
    decreases s.len(),
{
    if s.len() == 0 {
        st
    } else {
        scan_chars(s.drop_first(), scan_step(st, s[0]))
    }
}

/// The delimiter-marked segments of a line, braces included.
pub open spec fn segments_of(s: Seq<char>) -> Seq<Seq<char>> {
    scan_chars(s, scan_init()).segs
}

/// Routes one (marker, field) segment pair to the field the marker names.
pub open spec fn apply_pair(
    acc: (Option<Seq<char>>, Option<Seq<char>>, Option<Seq<char>>),
    marker: Seq<char>,
    field: Seq<char>,
) -> (Option<Seq<char>>, Option<Seq<char>>, Option<Seq<char>>) {
    let mk = seg_content(marker);
    let fl = seg_content(field);
    if mk == seq![TITLE_MARKER] {
        (Some(fl), acc.1, acc.2)
    } else if mk == seq![CATEGORY_MARKER] {
        (acc.0, Some(fl), acc.2)
    } else if mk == seq![URL_MARKER] {
        (acc.0, acc.1, Some(fl))
    } else {
        acc
    }
}

/// What decoding a line yields: a record exactly when the line holds six
/// segments naming all three fields.
pub open spec fn parse_line_spec(s: Seq<char>) -> Option<BookmarkView> {
    let segs = segments_of(s);
    if segs.len() == 6 {
        let acc = apply_pair(
            apply_pair(apply_pair((None, None, None), segs[0], segs[1]), segs[2], segs[3]),
            segs[4],
            segs[5],
        );
        if acc.0 is Some && acc.1 is Some && acc.2 is Some {
            Some(BookmarkView { title: acc.0->0, category: acc.1->0, url: acc.2->0 })
        } else {
            None
        }
    } else {
        None
    }
}

fn is_brace(c: char) -> (r: bool)
    ensures
        r == is_brace_char(c),
{
    c == SEGMENT_START || c == SEGMENT_END
}

fn copy_chars(v: &Vec<char>) -> (r: Vec<char>)
    ensures
        r@ == v@,
{
    let n = v.len();
    let mut r: Vec<char> = Vec::new();
    let mut i: usize = 0;
    while i < n
        invariant
            n == v@.len(),
            i <= n,
            r@ == v@.subrange(0, i as int),
        decreases n - i,
    {
        r.push(v[i]);
        i = i + 1;
        proof {
            assert(r@ =~= v@.subrange(0, i as int));
        }
    }
    proof {
        assert(r@ =~= v@);
    }
    r
}

fn trim_vec_braces(v: &Vec<char>) -> (r: Vec<char>)
    ensures
        r@ == trim_by(v@, |c: char| is_brace_char(c)),
{
    let ghost p = |c: char| is_brace_char(c);
    let n = v.len();
    let mut start: usize = 0;
    while start < n && is_brace(v[start])
        invariant
            n == v@.len(),
            start <= n,
            forall|j: int| 0 <= j < start ==> is_brace_char(v@[j]),
        decreases n - start,
    {
        start = start + 1;
    }
    proof {
        lemma_trim_start_by_skip(v@, p, start as int);
    }
    if start == n {
        proof {
            assert(v@.skip(n as int) =~= Seq::<char>::empty());
        }
        return Vec::new();
    }
    let mut end: usize = n;
    while end > start && is_brace(v[end - 1])
        invariant
            n == v@.len(),
            start <= end <= n,
            forall|j: int| end <= j < n ==> is_brace_char(v@[j]),
        decreases end,
    {
        end = end - 1;
    }
    let mut r: Vec<char> = Vec::new();
    let mut i: usize = start;
    while i < end
        invariant
            start <= i <= end <= n,
            n == v@.len(),
            r@ == v@.subrange(start as int, i as int),
        decreases end - i,
    {
        r.push(v[i]);
        i = i + 1;
        proof {
            assert(r@ =~= v@.subrange(start as int, i as int));
        }
    }
    proof {
        let tail = v@.skip(start as int);
        assert(!p(tail[0]));
        assert(trim_start_by(v@, p) == tail);
        lemma_trim_end_by_take(tail, p, end - start);
        let kept = tail.take(end - start);
        assert(kept.len() > 0 && kept.last() == v@[end - 1]);
        assert(trim_end_by(kept, p) == kept);
        assert(kept =~= v@.subrange(start as int, end as int));
    }
    r
}

fn trim_vec_spaces(v: &Vec<char>) -> (r: Vec<char>)
    ensures
        r@ == trim_by(v@, |c: char| is_space_char(c)),
{
    let ghost p = |c: char| is_space_char(c);
    let n = v.len();
    let mut start: usize = 0;
    while start < n && is_space(v[start])
        invariant
            n == v@.len(),
            start <= n,
            forall|j: int| 0 <= j < start ==> is_space_char(v@[j]),
        decreases n - start,
    {
        start = start + 1;
    }
    proof {
        lemma_trim_start_by_skip(v@, p, start as int);
    }
    if start == n {
        proof {
            assert(v@.skip(n as int) =~= Seq::<char>::empty());
        }
        return Vec::new();
    }
    let mut end: usize = n;
    while end > start && is_space(v[end - 1])
        invariant
            n == v@.len(),
            start <= end <= n,
            forall|j: int| end <= j < n ==> is_space_char(v@[j]),
        decreases end,
    {
        end = end - 1;
    }
    let mut r: Vec<char> = Vec::new();
    let mut i: usize = start;
    while i < end
        invariant
            start <= i <= end <= n,
            n == v@.len(),
            r@ == v@.subrange(start as int, i as int),
        decreases end - i,
    {
        r.push(v[i]);
        i = i + 1;
        proof {
            assert(r@ =~= v@.subrange(start as int, i as int));
        }
    }
    proof {
        let tail = v@.skip(start as int);
        assert(!p(tail[0]));
        assert(trim_start_by(v@, p) == tail);
        lemma_trim_end_by_take(tail, p, end - start);
        let kept = tail.take(end - start);
        assert(kept.len() > 0 && kept.last() == v@[end - 1]);
        assert(trim_end_by(kept, p) == kept);
        assert(kept =~= v@.subrange(start as int, end as int));
    }
    r
}

/// A segment's content: braces stripped, then whitespace trimmed.
fn segment_content(seg: &Vec<char>) -> (r: Vec<char>)
    ensures
        r@ == seg_content(seg@),
{
    let stripped = trim_vec_braces(seg);
    trim_vec_spaces(&stripped)
}

fn is_marker(content: &Vec<char>, marker: char) -> (r: bool)
    ensures
        r == (content@ == seq![marker]),
{
    if content.len() == 1 && content[0] == marker {
        proof {
            assert(content@ =~= seq![marker]);
        }
        true
    } else {
        proof {
            if content@.len() == 1 {
                assert(content@[0] != marker);
            }
        }
        false
    }
}

impl Bookmark {
    /// Decodes one line; `None` when the line is not a record of the format.
    pub fn from_line(line: &str) -> (r: Option<Bookmark>)
        ensures
            match r {
                Some(b) => parse_line_spec(line@) == Some(b@),
                None => parse_line_spec(line@) is None,
            },
    {
        let lv = str_chars(line);
        let n = lv.len();
        let mut capture: bool = false;
        let mut seg: Vec<char> = Vec::new();
        let mut segs: Vec<Vec<char>> = Vec::new();
        let mut i: usize = 0;
        proof {
            assert(lv@.skip(0) =~= lv@);
            assert(segs.deep_view() =~~= Seq::<Seq<char>>::empty());
        }
        while i < n
            invariant
                n == lv@.len(),
                lv@ == line@,
                i <= n,
                scan_chars(line@, scan_init()) == scan_chars(
                    lv@.skip(i as int),
                    ScanState { capture, seg: seg@, segs: segs.deep_view() },
                ),
            decreases n - i,
        {
            let ghost pre = ScanState { capture, seg: seg@, segs: segs.deep_view() };
            let ghost presegs = segs.deep_view();
            let c = lv[i];
            if c == SEGMENT_START && !capture {
                capture = true;
                seg.clear();
            } else if c == '\n' && capture {
                capture = false;
                seg.clear();
            }
            if capture {
                seg.push(c);
            }
            if c == SEGMENT_END && capture {
                capture = false;
                if seg.len() > 0 {
                    let done = copy_chars(&seg);
                    segs.push(done);
                    proof {
                        assert(segs.deep_view() =~~= presegs.push(seg@));
                    }
                }
            }
            proof {
                let cur = ScanState { capture, seg: seg@, segs: segs.deep_view() };
                assert(cur == scan_step(pre, c));
                assert(lv@.skip(i as int)[0] == c);
                assert(lv@.skip(i as int).drop_first() =~= lv@.skip(i as int + 1));
                assert(scan_chars(lv@.skip(i as int), pre) == scan_chars(
                    lv@.skip(i as int + 1),
                    cur,
                ));
            }
            i = i + 1;
        }
        proof {
            assert(lv@.skip(n as int) =~= Seq::<char>::empty());
            assert(segments_of(line@) == segs.deep_view());
        }
        if segs.len() != 6 {
            return None;
        }
        let m0 = segment_content(&segs[0]);
        let f0 = segment_content(&segs[1]);
        let m1 = segment_content(&segs[2]);
        let f1 = segment_content(&segs[3]);
        let m2 = segment_content(&segs[4]);
        let f2 = segment_content(&segs[5]);
        let mut title: Option<Vec<char>> = None;
        let mut category: Option<Vec<char>> = None;
        let mut url: Option<Vec<char>> = None;
        if is_marker(&m0, TITLE_MARKER) {
            title = Some(f0);
        } else if is_marker(&m0, CATEGORY_MARKER) {
            category = Some(f0);
        } else if is_marker(&m0, URL_MARKER) {
            url = Some(f0);
        }
        if is_marker(&m1, TITLE_MARKER) {
            title = Some(f1);
        } else if is_marker(&m1, CATEGORY_MARKER) {
            category = Some(f1);
        } else if is_marker(&m1, URL_MARKER) {
            url = Some(f1);
        }
        if is_marker(&m2, TITLE_MARKER) {
            title = Some(f2);
        } else if is_marker(&m2, CATEGORY_MARKER) {
            category = Some(f2);
        } else if is_marker(&m2, URL_MARKER) {
            url = Some(f2);
        }
        proof {
            let gsegs = segs.deep_view();
            assert(gsegs[0] == segs@[0]@);
            assert(gsegs[1] == segs@[1]@);
            assert(gsegs[2] == segs@[2]@);
            assert(gsegs[3] == segs@[3]@);
            assert(gsegs[4] == segs@[4]@);
            assert(gsegs[5] == segs@[5]@);
        }
        match (title, category, url) {
            (Some(t), Some(c), Some(u)) => {
                let rt = chars_to_string(&t);
                let rc = chars_to_string(&c);
                let ru = chars_to_string(&u);
                Some(Bookmark::new(rt, rc, ru))
            },
            _ => None,
        }
    }
}

// ---------------------------------------------------------------------------
// The round trip
// ---------------------------------------------------------------------------

/// A field value the codec carries losslessly: no segment braces, no newline,
/// and no whitespace at either end (the decoder trims each field).
pub open spec fn clean_field(f: Seq<char>) -> bool {
    &&& forall|i: int|
        0 <= i < f.len() ==> f[i] != SEGMENT_START && f[i] != SEGMENT_END && f[i] != '\n'
    &&& trim_spec(f) == f
}

/// Scanning a concatenation scans the parts in order.
pub proof fn lemma_scan_concat(a: Seq<char>, b: Seq<char>, st: ScanState)
    ensures
        scan_chars(a + b, st) == scan_chars(b, scan_chars(a, st)),
    decreases a.len(),
{
    if a.len() == 0 {
        assert(a + b =~= b);
    } else {
        assert((a + b)[0] == a[0]);
        assert((a + b).drop_first() =~= a.drop_first() + b);
        lemma_scan_concat(a.drop_first(), b, scan_step(st, a[0]));
    }
}

/// While capturing, characters that neither close nor abandon the segment are
/// appended to it.
pub proof fn lemma_scan_capture(f: Seq<char>, st: ScanState)
    requires
        st.capture,
        forall|i: int| 0 <= i < f.len() ==> f[i] != SEGMENT_END && f[i] != '\n',
    ensures
        scan_chars(f, st) == (ScanState { capture: true, seg: st.seg + f, segs: st.segs }),
    decreases f.len(),
{
    if f.len() == 0 {
        assert(st.seg + f =~= st.seg);
    } else {
        let st2 = scan_step(st, f[0]);
        assert(st2 == (ScanState { capture: true, seg: st.seg.push(f[0]), segs: st.segs }));
        lemma_scan_capture(f.drop_first(), st2);
        assert(st.seg.push(f[0]) + f.drop_first() =~= st.seg + f);
    }
}

/// Outside a segment, characters other than the opening brace are ignored.
pub proof fn lemma_scan_idle(s: Seq<char>, st: ScanState)
    requires
        !st.capture,
        forall|i: int| 0 <= i < s.len() ==> s[i] != SEGMENT_START,
    ensures
        scan_chars(s, st) == st,
    decreases s.len(),
{
    if s.len() > 0 {
        assert(scan_step(st, s[0]) == st);
        lemma_scan_idle(s.drop_first(), st);
    }
}

/// A whole braced group scanned from outside a segment contributes exactly
/// one completed segment, braces included.
pub proof fn lemma_scan_segment(f: Seq<char>, st: ScanState)
    requires
        !st.capture,
        forall|i: int|
            0 <= i < f.len() ==> f[i] != SEGMENT_START && f[i] != SEGMENT_END && f[i] != '\n',
    ensures
        scan_chars(seq![SEGMENT_START] + f + seq![SEGMENT_END], st) == (ScanState {
            capture: false,
            seg: seq![SEGMENT_START] + f + seq![SEGMENT_END],
            segs: st.segs.push(seq![SEGMENT_START] + f + seq![SEGMENT_END]),
        }),
{
    let w = seq![SEGMENT_START] + f + seq![SEGMENT_END];
    assert(w[0] == SEGMENT_START);
    let st1 = scan_step(st, SEGMENT_START);
    assert(Seq::<char>::empty().push(SEGMENT_START) =~= seq![SEGMENT_START]);
    assert(st1 == (ScanState { capture: true, seg: seq![SEGMENT_START], segs: st.segs }));
    assert(w.drop_first() =~= f + seq![SEGMENT_END]);
    lemma_scan_concat(f, seq![SEGMENT_END], st1);
    lemma_scan_capture(f, st1);
    let st2 = ScanState { capture: true, seg: seq![SEGMENT_START] + f, segs: st.segs };
    assert(scan_chars(f, st1) == st2);
    let closed = (seq![SEGMENT_START] + f).push(SEGMENT_END);
    assert(scan_step(st2, SEGMENT_END) == (ScanState {
        capture: false,
        seg: closed,
        segs: st.segs.push(closed),
    }));
    assert(seq![SEGMENT_END].drop_first() =~= Seq::<char>::empty());
    assert(closed =~= w);
    assert(seq![SEGMENT_END][0] == SEGMENT_END);
    assert(scan_chars(seq![SEGMENT_END], st2) == scan_chars(
        seq![SEGMENT_END].drop_first(),
        scan_step(st2, SEGMENT_END),
    ));
    assert(scan_chars(Seq::<char>::empty(), scan_step(st2, SEGMENT_END)) == scan_step(
        st2,
        SEGMENT_END,
    ));
    assert(scan_chars(w, st) == scan_chars(f + seq![SEGMENT_END], st1));
    assert(scan_chars(w, st) == scan_step(st2, SEGMENT_END));
}

/// Stripping the braces of a one-character marker segment leaves the marker.
proof fn lemma_seg_content_marker(m: char)
    requires
        !is_brace_char(m),
        !is_space_char(m),
    ensures
        seg_content(seq![SEGMENT_START, m, SEGMENT_END]) == seq![m],
{
    let bp = |c: char| is_brace_char(c);
    let sp = |c: char| is_space_char(c);
    let w = seq![SEGMENT_START, m, SEGMENT_END];
    assert(w.drop_first() =~= seq![m, SEGMENT_END]);
    assert(seq![m, SEGMENT_END].drop_last() =~= seq![m]);
    assert(trim_start_by(w, bp) == trim_start_by(seq![m, SEGMENT_END], bp));
    assert(trim_start_by(seq![m, SEGMENT_END], bp) == seq![m, SEGMENT_END]);
    assert(trim_end_by(seq![m, SEGMENT_END], bp) == trim_end_by(seq![m], bp));
    assert(trim_end_by(seq![m], bp) == seq![m]);
    assert(trim_start_by(seq![m], sp) == seq![m]);
    assert(trim_end_by(seq![m], sp) == seq![m]);
}

/// Stripping the braces of a clean field segment leaves the field.
proof fn lemma_seg_content_field(f: Seq<char>)
    requires
        clean_field(f),
    ensures
        seg_content(seq![SEGMENT_START] + f + seq![SEGMENT_END]) == f,
{
    let bp = |c: char| is_brace_char(c);
    let sp = |c: char| is_space_char(c);
    let w = seq![SEGMENT_START] + f + seq![SEGMENT_END];
    assert(w[0] == SEGMENT_START);
    let tail = f + seq![SEGMENT_END];
    assert(w.skip(1) =~= tail);
    lemma_trim_start_by_skip(w, bp, 1);
    assert(trim_start_by(w, bp) == trim_start_by(tail, bp));
    if f.len() == 0 {
        assert(tail =~= seq![SEGMENT_END]);
        assert(tail.skip(1) =~= Seq::<char>::empty());
        lemma_trim_start_by_skip(tail, bp, 1);
        assert(trim_start_by(w, bp) == Seq::<char>::empty());
        assert(trim_end_by(Seq::<char>::empty(), bp) =~= Seq::<char>::empty());
        assert(trim_by(Seq::<char>::empty(), sp) =~= Seq::<char>::empty());
        assert(f =~= Seq::<char>::empty());
    } else {
        assert(tail[0] == f[0]);
        assert(!bp(tail[0]));
        assert(trim_start_by(tail, bp) == tail);
        assert(tail.last() == SEGMENT_END);
        assert(tail.drop_last() =~= f);
        assert(trim_end_by(tail, bp) == trim_end_by(f, bp));
        assert(!bp(f.last()));
        assert(trim_end_by(f, bp) == f);
        assert(trim_by(f, sp) == f);
    }
}

/// ROUND TRIP: a line encoded from clean, untruncated fields decodes back to
/// exactly those fields, whatever padding widths were used.
#[verifier::rlimit(100)]
pub proof fn lemma_encode_decode_round_trip(
    t: Seq<char>,
    c: Seq<char>,
    u: Seq<char>,
    tp: nat,
    cp: nat,
)
    requires
        clean_field(t),
        clean_field(c),
        clean_field(u),
        t.len() <= TITLE_MAX_LENGTH as nat,
        c.len() <= CATEGORY_MAX_LENGTH as nat,
        u.len() <= URL_MAX_LENGTH as nat,
    ensures
        parse_line_spec(encode_line(t, c, u, tp, cp)) == Some(
            BookmarkView { title: t, category: c, url: u },
        ),
{
    let line = encode_line(t, c, u, tp, cp);
    let s1 = seq![SEGMENT_START] + seq![TITLE_MARKER] + seq![SEGMENT_END];
    let s2 = seq![SEGMENT_START] + t + seq![SEGMENT_END];
    let s3 = repeated(' ', pad_amount(t.len(), tp, TITLE_MAX_LENGTH as nat));
    let s4 = seq![SEGMENT_START] + seq![CATEGORY_MARKER] + seq![SEGMENT_END];
    let s5 = seq![SEGMENT_START] + c + seq![SEGMENT_END];
    let s6 = repeated(' ', pad_amount(c.len(), cp, CATEGORY_MAX_LENGTH as nat));
    let s7 = seq![SEGMENT_START] + seq![URL_MARKER] + seq![SEGMENT_END];
    let s8 = seq![SEGMENT_START] + u + seq![SEGMENT_END];
    let s9 = seq!['\n'];
    assert(field_for_line(t, TITLE_MAX_LENGTH as nat) == t);
    assert(field_for_line(c, CATEGORY_MAX_LENGTH as nat) == c);
    assert(field_for_line(u, URL_MAX_LENGTH as nat) == u);
    assert(line =~= s1 + (s2 + (s3 + (s4 + (s5 + (s6 + (s7 + (s8 + s9)))))))); 
    let st0 = scan_init();
    lemma_scan_concat(s1, s2 + (s3 + (s4 + (s5 + (s6 + (s7 + (s8 + s9)))))), st0);
    lemma_scan_segment(seq![TITLE_MARKER], st0);
    let st1 = scan_chars(s1, st0);
    lemma_scan_concat(s2, s3 + (s4 + (s5 + (s6 + (s7 + (s8 + s9))))), st1);
    lemma_scan_segment(t, st1);
    let st2 = scan_chars(s2, st1);
    lemma_scan_concat(s3, s4 + (s5 + (s6 + (s7 + (s8 + s9)))), st2);
    lemma_scan_idle(s3, st2);
    lemma_scan_concat(s4, s5 + (s6 + (s7 + (s8 + s9))), st2);
    lemma_scan_segment(seq![CATEGORY_MARKER], st2);
    let st4 = scan_chars(s4, st2);
    lemma_scan_concat(s5, s6 + (s7 + (s8 + s9)), st4);
    lemma_scan_segment(c, st4);
    let st5 = scan_chars(s5, st4);
    lemma_scan_concat(s6, s7 + (s8 + s9), st5);
    lemma_scan_idle(s6, st5);
    lemma_scan_concat(s7, s8 + s9, st5);
    lemma_scan_segment(seq![URL_MARKER], st5);
    let st7 = scan_chars(s7, st5);
    lemma_scan_concat(s8, s9, st7);
    lemma_scan_segment(u, st7);
    let st8 = scan_chars(s8, st7);
    lemma_scan_idle(s9, st8);
    let segs = segments_of(line);
    assert(segs =~~= seq![s1, s2, s4, s5, s7, s8]);
    lemma_seg_content_marker(TITLE_MARKER);
    lemma_seg_content_marker(CATEGORY_MARKER);
    lemma_seg_content_marker(URL_MARKER);
    assert(s1 =~= seq![SEGMENT_START, TITLE_MARKER, SEGMENT_END]);
    assert(s4 =~= seq![SEGMENT_START, CATEGORY_MARKER, SEGMENT_END]);
    assert(s7 =~= seq![SEGMENT_START, URL_MARKER, SEGMENT_END]);
    lemma_seg_content_field(t);
    lemma_seg_content_field(c);
    lemma_seg_content_field(u);
    assert(seq![TITLE_MARKER][0] == TITLE_MARKER);
    assert(seq![CATEGORY_MARKER][0] == CATEGORY_MARKER);
    assert(seq![URL_MARKER][0] == URL_MARKER);
    let acc1 = apply_pair((None, None, None), segs[0], segs[1]);
    assert(acc1 == (Some(t), None::<Seq<char>>, None::<Seq<char>>));
    let acc2 = apply_pair(acc1, segs[2], segs[3]);
    assert(acc2 == (Some(t), Some(c), None::<Seq<char>>));
    let acc3 = apply_pair(acc2, segs[4], segs[5]);
    assert(acc3 == (Some(t), Some(c), Some(u)));
}


} // verus!
