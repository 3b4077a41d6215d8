//! Snapshot-relative navigation paths.
use vstd::prelude::*;

verus! {

/// The mathematical value of one Path segment.
pub enum SegView {
    Key(Seq<char>),
    Index(nat),
}

/// One segment in a Snapshot-relative [`Path`].
#[derive(Debug, Clone, PartialEq, Eq, PartialOrd, Ord, Hash)]
pub enum PathSeg {
    /// Navigates to a Map entry by key.
    Key(String),
    /// Navigates to a List element by index.
    Index(usize),
}

impl DeepView for PathSeg {
    type V = SegView;

    open spec fn deep_view(&self) -> SegView {
        match *self {
            PathSeg::Key(k) => SegView::Key(k@),
            PathSeg::Index(i) => SegView::Index(i as nat),
        }
    }
}

impl PathSeg {
    /// Returns an equal segment.
    pub fn copy(&self) -> (c: PathSeg)
        ensures
            c.deep_view() == self.deep_view(),
    {
        match self {
            PathSeg::Key(k) => PathSeg::Key(k.clone()),
            PathSeg::Index(i) => PathSeg::Index(*i),
        }
    }
}

/// A snapshot-relative navigation address. A Path is not part of a Change
/// and is not stable across concurrent edits.
#[derive(Debug, Clone, Default, PartialEq, Eq, PartialOrd, Ord, Hash)]
pub struct Path {
    segments: Vec<PathSeg>,
}

impl View for Path {
    type V = Seq<SegView>;

    closed spec fn view(&self) -> Seq<SegView> {
        self.segments.deep_view()
    }
}

impl Path {
    /// Creates the root Path.
    pub fn new() -> (p: Path)
        ensures
            p@ == Seq::<SegView>::empty(),
    {
        let p = Path { segments: Vec::new() };
        proof {
            assert(p@ =~= Seq::<SegView>::empty());
        }
        p
    }

    /// Creates a one-segment Map-key Path.
    pub fn key(key: &str) -> (p: Path)
        ensures
            p@ == seq![SegView::Key(key@)],
    {
        Path::new().with_key(key)
    }

    /// Creates a one-segment List-index Path.
    pub fn index(index: usize) -> (p: Path)
        ensures
            p@ == seq![SegView::Index(index as nat)],
    {
        Path::new().with_index(index)
    }

    /// Appends a Map key and returns the extended Path.
    pub fn with_key(self, key: &str) -> (p: Path)
        ensures
            p@ == self@.push(SegView::Key(key@)),
    {
        let mut p = self;
        p.push_key_mut(key);
        p
    }

    /// Appends a List index and returns the extended Path.
    pub fn with_index(self, index: usize) -> (p: Path)
        ensures
            p@ == self@.push(SegView::Index(index as nat)),
    {
        let mut p = self;
        p.push_index_mut(index);
        p
    }

    /// Appends a Map key and returns the extended Path.
    ///
    /// Prefer [`Path::with_key`] when building a Path fluently.
    pub fn push_key(self, key: &str) -> (p: Path)
        ensures
            p@ == self@.push(SegView::Key(key@)),
    {
        self.with_key(key)
    }

    /// Appends a List index and returns the extended Path.
    ///
    /// Prefer [`Path::with_index`] when building a Path fluently.
    pub fn push_index(self, index: usize) -> (p: Path)
        ensures
            p@ == self@.push(SegView::Index(index as nat)),
    {
        self.with_index(index)
    }

    /// Appends a Map key in place.
    pub fn push_key_mut(&mut self, key: &str)
        ensures
            final(self)@ == old(self)@.push(SegView::Key(key@)),
    {
        self.push(PathSeg::Key(key.to_owned()));
    }

    /// Appends a List index in place.
    pub fn push_index_mut(&mut self, index: usize)
        ensures
            final(self)@ == old(self)@.push(SegView::Index(index as nat)),
    {
        self.push(PathSeg::Index(index));
    }

    /// Appends one segment in place.
    pub fn push(&mut self, segment: PathSeg)
        ensures
            final(self)@ == old(self)@.push(segment.deep_view()),
    {
        let ghost before = self@;
        self.segments.push(segment);
        proof {
            assert(self@ =~= before.push(segment.deep_view()));
        }
    }

    /// Removes the final segment, if any.
    pub fn pop(&mut self)
        ensures
            old(self)@.len() == 0 ==> final(self)@ == old(self)@,
            old(self)@.len() > 0 ==> final(self)@ == old(self)@.drop_last(),
    {
        let ghost before = self@;
        self.segments.pop();
        proof {
            if before.len() > 0 {
                assert(self@ =~= before.drop_last());
            }
        }
    }

    /// Returns all path segments from root to target.
    pub fn segments(&self) -> (s: &[PathSeg])
        ensures
            s.deep_view() == self@,
    {
        self.segments.as_slice()
    }

    /// Returns whether this is the root Path.
    pub fn is_empty(&self) -> (b: bool)
        ensures
            b == (self@.len() == 0),
    {
        self.segments.len() == 0
    }

    /// Renders the Path as `$`, `.key` and `[index]` segments.
    pub fn to_display_string(&self) -> (s: String)
        ensures
            s@ == display_path(self@),
    {
        let mut out = String::new();
        out.append("$");
        proof {
            reveal_strlit("$");
        }
        let mut i: usize = 0;
        while i < self.segments.len()
            invariant
                i <= self@.len(),
                self@ == self.segments.deep_view(),
                out@ == display_path(self@.take(i as int)),
            decreases self@.len() - i,
        {
            proof {
                assert(self@.take(i + 1).drop_last() =~= self@.take(i as int));
                assert(self@.take(i + 1).last() == self@[i as int]);
                reveal_strlit(".");
                reveal_strlit("[");
                reveal_strlit("]");
            }
            match &self.segments[i] {
                PathSeg::Key(key) => {
                    out.append(".");
                    out.append(key.as_str());
                },
                PathSeg::Index(index) => {
                    out.append("[");
                    let digits = decimal_string(*index);
                    out.append(digits.as_str());
                    out.append("]");
                },
            }
            i = i + 1;
        }
        proof {
            assert(self@.take(i as int) =~= self@);
        }
        out
    }
}

/// The Path made of the first `len` segments of `path` (all of them when
/// it has fewer).
pub fn prefix(path: &Path, len: usize) -> (p: Path)
    ensures
        p@ == path@.take(if len <= path@.len() {
            len as int
        } else {
            path@.len() as int
        }),
{
    let segments = path.segments();
    let n = if len <= segments.len() {
        len
    } else {
        segments.len()
    };
    let mut out = Path::new();
    let mut i: usize = 0;
    proof {
        assert(path@.take(0) =~= out@);
    }
    while i < n
        invariant
            n <= path@.len(),
            segments.deep_view() == path@,
            i <= n,
            out@ == path@.take(i as int),
        decreases n - i,
    {
        out.push(segments[i].copy());
        proof {
            assert(path@.take(i + 1) =~= path@.take(i as int).push(path@[i as int]));
        }
        i = i + 1;
    }
    out
}

/// Decimal digits of `n`.
pub open spec fn decimal(n: nat) -> Seq<char>
    decreases n,
{
    if n < 10 {
        seq![digit_char(n)]
    } else {
        decimal(n / 10).push(digit_char(n % 10))
    }
}

pub open spec fn digit_char(d: nat) -> char {
    if d == 0 {
        '0'
    } else if d == 1 {
        '1'
    } else if d == 2 {
        '2'
    } else if d == 3 {
        '3'
    } else if d == 4 {
        '4'
    } else if d == 5 {
        '5'
    } else if d == 6 {
        '6'
    } else if d == 7 {
        '7'
    } else if d == 8 {
        '8'
    } else {
        '9'
    }
}

/// The display form of a Path: `$` followed by `.key` or `[index]` per segment.
pub open spec fn display_path(p: Seq<SegView>) -> Seq<char>
    decreases p.len(),
{
    if p.len() == 0 {
        seq!['$']
    } else {
        display_path(p.drop_last()) + match p.last() {
            SegView::Key(k) => seq!['.'] + k,
            SegView::Index(i) => seq!['['] + decimal(i) + seq![']'],
        }
    }
}

pub(crate) fn digit(d: usize) -> (c: char)
    requires
        d < 10,
    ensures
        c == digit_char(d as nat),
{
    if d == 0 {
        '0'
    } else if d == 1 {
        '1'
    } else if d == 2 {
        '2'
    } else if d == 3 {
        '3'
    } else if d == 4 {
        '4'
    } else if d == 5 {
        '5'
    } else if d == 6 {
        '6'
    } else if d == 7 {
        '7'
    } else if d == 8 {
        '8'
    } else {
        '9'
    }
}

/// Decimal rendering of an index.
pub fn decimal_string(n: usize) -> (s: String)
    ensures
        s@ == decimal(n as nat),
    decreases n,
{
    if n < 10 {
        let mut s = String::new();
        crate::text_buf::push_char(&mut s, digit(n));
        s
    } else {
        let mut s = decimal_string(n / 10);
        crate::text_buf::push_char(&mut s, digit(n % 10));
        s
    }
}

/// Converts one supported Path value into a [`PathSeg`].
pub trait IntoPathSeg: Sized {
    /// The segment this value denotes.
    spec fn seg_view(&self) -> SegView;

    /// Converts this value into one Path segment.
    fn into_path_seg(self) -> (s: PathSeg)
        ensures
            s.deep_view() == self.seg_view(),
    ;
}

impl IntoPathSeg for String {
    open spec fn seg_view(&self) -> SegView {
        SegView::Key(self@)
    }

    fn into_path_seg(self) -> (s: PathSeg) {
        PathSeg::Key(self)
    }
}

impl IntoPathSeg for usize {
    open spec fn seg_view(&self) -> SegView {
        SegView::Index(*self as nat)
    }

    fn into_path_seg(self) -> (s: PathSeg) {
        PathSeg::Index(self)
    }
}

impl<'a> IntoPathSeg for &'a str {
    open spec fn seg_view(&self) -> SegView {
        SegView::Key((*self)@)
    }

    fn into_path_seg(self) -> (s: PathSeg) {
        PathSeg::Key(self.to_owned())
    }
}

/// Converts one supported path value into a [`PathSeg`].
pub fn path_segment<T: IntoPathSeg>(value: T) -> (s: PathSeg)
    ensures
        s.deep_view() == value.seg_view(),
{
    value.into_path_seg()
}

} // verus!
