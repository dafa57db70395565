//! Unix paths as text, and the confinement of archive paths to a directory.

use vstd::prelude::*;
use vstd::string::StrSliceExecFns;

use crate::status::{Code, Status};
use crate::text::to_chars;

verus! {

/// One component of a path.
pub enum Part {
    /// The leading slash of an absolute path.
    Root,
    /// A leading `.` of a relative path.
    Current,
    /// `..`, wherever it stands.
    Parent,
    /// A name.
    Normal(Seq<char>),
}

/// One component of a path, and where in the path it stands.
pub struct Piece {
    /// The component.
    pub part: Part,
    /// Its first character.
    pub start: int,
    /// The place behind its last character.
    pub end: int,
}

/// Whether a path starts at the root directory.
pub open spec fn is_absolute(path: Seq<char>) -> bool {
    path.len() > 0 && path[0] == '/'
}

/// The end of the run of characters from `from` that holds no slash.
pub open spec fn name_end(path: Seq<char>, from: int) -> int
    decreases path.len() - from,
{
    if from >= path.len() || path[from] == '/' {
        from
    } else {
        name_end(path, from + 1)
    }
}

/// The component between two slashes. Nothing stands between adjacent slashes,
/// and `.` stands for nothing but at the start of a path.
pub open spec fn piece_between(path: Seq<char>, start: int, end: int) -> Seq<Piece> {
    let name = path.subrange(start, end);
    if name == Seq::<char>::empty() {
        Seq::empty()
    } else if name == seq!['.'] {
        if start == 0 {
            seq![Piece { part: Part::Current, start, end }]
        } else {
            Seq::empty()
        }
    } else if name == seq!['.', '.'] {
        seq![Piece { part: Part::Parent, start, end }]
    } else {
        seq![Piece { part: Part::Normal(name), start, end }]
    }
}

/// The components of a path from `from`, which is the start of the path or
/// stands behind a slash.
pub open spec fn pieces_from(path: Seq<char>, from: int) -> Seq<Piece>
    decreases path.len() + 1 - from,
    via pieces_from_decreases
{
    if from >= path.len() {
        Seq::empty()
    } else {
        piece_between(path, from, name_end(path, from)) + pieces_from(
            path,
            name_end(path, from) + 1,
        )
    }
}

#[via_fn]
proof fn pieces_from_decreases(path: Seq<char>, from: int) {
    lemma_name_end(path, from);
}

/// The components of a path, and where they stand.
pub open spec fn pieces(path: Seq<char>) -> Seq<Piece> {
    if is_absolute(path) {
        seq![Piece { part: Part::Root, start: 0, end: 1 }] + pieces_from(path, 0)
    } else {
        pieces_from(path, 0)
    }
}

/// The components of a path.
pub open spec fn parts(path: Seq<char>) -> Seq<Part> {
    pieces(path).map_values(|piece: Piece| piece.part)
}

/// What is left of a path without its first `count` components.
pub open spec fn remainder(path: Seq<char>, count: int) -> Seq<char> {
    let all = pieces(path);
    if count >= all.len() {
        Seq::empty()
    } else {
        path.subrange(all[count].start, all.last().end)
    }
}

/// The path, relative to `root`, that a request for `requested` opens; none
/// where the request is denied. A path with a parent component is denied, and
/// so is an absolute path that does not start with `root`.
pub open spec fn confined(root: Seq<char>, requested: Seq<char>) -> Option<Seq<char>> {
    if parts(requested).contains(Part::Parent) {
        None
    } else if !is_absolute(requested) {
        Some(requested)
    } else if parts(root).is_prefix_of(parts(requested)) {
        Some(remainder(requested, parts(root).len() as int))
    } else {
        None
    }
}

/// The message of a denied request.
pub open spec fn denied_text() -> Seq<char> {
    "archive_path must stay inside the configured local file root"@
}

proof fn lemma_name_end(path: Seq<char>, from: int)
    ensures
        from <= name_end(path, from),
        from <= path.len() ==> name_end(path, from) <= path.len(),
        from <= name_end(path, from) < path.len() ==> path[name_end(path, from)] == '/',
        forall|i: int| from <= i < name_end(path, from) ==> path[i] != '/',
    decreases path.len() - from,
{
    if from < path.len() && path[from] != '/' {
        lemma_name_end(path, from + 1);
    }
}

/// The kinds of component.
#[derive(Clone, Copy, PartialEq, Eq, Structural)]
enum PartKind {
    Root,
    Current,
    Parent,
    Normal,
}

/// A component by its place in the path.
#[derive(Clone, Copy)]
struct Span {
    kind: PartKind,
    start: usize,
    end: usize,
}

impl Span {
    /// The component that this span of `path` stands for.
    spec fn piece(self, path: Seq<char>) -> Piece {
        Piece {
            part: match self.kind {
                PartKind::Root => Part::Root,
                PartKind::Current => Part::Current,
                PartKind::Parent => Part::Parent,
                PartKind::Normal => Part::Normal(path.subrange(self.start as int, self.end as int)),
            },
            start: self.start as int,
            end: self.end as int,
        }
    }
}

/// The components that spans of `path` stand for.
spec fn span_pieces(path: Seq<char>, spans: Seq<Span>) -> Seq<Piece> {
    spans.map_values(|span: Span| span.piece(path))
}

/// Every component lies inside its path, and names are not empty.
proof fn lemma_pieces_inside(path: Seq<char>, from: int)
    requires
        0 <= from,
    ensures
        forall|i: int|
            0 <= i < pieces_from(path, from).len() ==> {
                let piece = #[trigger] pieces_from(path, from)[i];
                from <= piece.start < piece.end <= path.len()
            },
    decreases path.len() + 1 - from,
{
    if from < path.len() {
        lemma_name_end(path, from);
        lemma_pieces_inside(path, name_end(path, from) + 1);
        let name = path.subrange(from, name_end(path, from));
        if name_end(path, from) == from {
            assert(name =~= Seq::<char>::empty());
        }
    }
}

/// Components stand in the path in their order.
proof fn lemma_pieces_from_ordered(path: Seq<char>, from: int, i: int, j: int)
    requires
        0 <= from,
        0 <= i <= j < pieces_from(path, from).len(),
    ensures
        from <= pieces_from(path, from)[i].start < pieces_from(path, from)[j].end <= path.len(),
    decreases path.len() + 1 - from,
{
    lemma_pieces_inside(path, from);
    lemma_name_end(path, from);
    let end = name_end(path, from);
    let head = piece_between(path, from, end);
    if i >= head.len() {
        lemma_pieces_from_ordered(path, end + 1, i - head.len(), j - head.len());
    } else if j >= head.len() {
        lemma_pieces_inside(path, end + 1);
        assert(pieces_from(path, from)[j] == pieces_from(path, end + 1)[j - head.len()]);
    }
}

/// Components stand in the path in their order.
proof fn lemma_pieces_ordered(path: Seq<char>, i: int, j: int)
    requires
        0 <= i <= j < pieces(path).len(),
    ensures
        0 <= pieces(path)[i].start < pieces(path)[j].end <= path.len(),
{
    let shift: int = if is_absolute(path) { 1 } else { 0 };
    lemma_pieces_inside(path, 0);
    if i >= shift {
        lemma_pieces_from_ordered(path, 0, i - shift, j - shift);
    } else if j >= shift {
        assert(pieces(path)[j] == pieces_from(path, 0)[j - shift]);
    }
}

/// Finds the components of a path.
fn spans(path: &Vec<char>) -> (found: Vec<Span>)
    ensures
        span_pieces(path@, found@) == pieces(path@),
        forall|i: int|
            0 <= i < found@.len() ==> (#[trigger] found@[i]).start <= found@[i].end <= path@.len(),
{
    let len: usize = path.len();
    let mut found: Vec<Span> = Vec::new();
    if len > 0 && path[0] == '/' {
        found.push(Span { kind: PartKind::Root, start: 0, end: 1 });
    }
    assert(span_pieces(path@, found@) + pieces_from(path@, 0) =~= pieces(path@));
    let mut from: usize = 0;
    while from < len
        invariant
            len == path@.len(),
            span_pieces(path@, found@) + pieces_from(path@, from as int) == pieces(path@),
            forall|i: int|
                0 <= i < found@.len() ==> (#[trigger] found@[i]).start <= found@[i].end <= path@.len(),
        decreases len + 1 - from,
    {
        let mut end: usize = from;
        while end < len && path[end] != '/'
            invariant
                len == path@.len(),
                from <= end <= len,
                name_end(path@, from as int) == name_end(path@, end as int),
            decreases len - end,
        {
            end += 1;
        }
        let ghost before = found@;
        let ghost name = path@.subrange(from as int, end as int);
        let size: usize = end - from;
        if size == 1 && path[from] == '.' {
            assert(name =~= seq!['.']);
            if from == 0 {
                found.push(Span { kind: PartKind::Current, start: from, end });
            }
        } else if size == 2 && path[from] == '.' && path[from + 1] == '.' {
            assert(name =~= seq!['.', '.']);
            found.push(Span { kind: PartKind::Parent, start: from, end });
        } else if size > 0 {
            assert(name[0] == path@[from as int]);
            assert(size == 2 ==> name[1] == path@[from + 1]);
            assert(seq!['.'].len() == 1 && seq!['.'][0] == '.');
            assert(seq!['.', '.'].len() == 2 && seq!['.', '.'][0] == '.' && seq!['.', '.'][1]
                == '.');
            found.push(Span { kind: PartKind::Normal, start: from, end });
        }
        proof {
            assert(size == 0 ==> name =~= Seq::<char>::empty());
            assert(span_pieces(path@, found@) =~= span_pieces(path@, before) + piece_between(
                path@,
                from as int,
                end as int,
            ));
            assert(span_pieces(path@, found@) + pieces_from(path@, end + 1) =~= span_pieces(
                path@,
                before,
            ) + pieces_from(path@, from as int));
        }
        if end == len {
            proof {
                assert(pieces_from(path@, end + 1) =~= Seq::<Piece>::empty());
                assert(span_pieces(path@, found@) =~= pieces(path@));
            }
            return found;
        }
        from = end + 1;
    }
    assert(pieces_from(path@, from as int) =~= Seq::<Piece>::empty());
    assert(span_pieces(path@, found@) =~= pieces(path@));
    found
}

/// Whether two spans of two paths stand for the same component.
fn same_part(a: &Vec<char>, span: Span, b: &Vec<char>, other: Span) -> (same: bool)
    requires
        span.start <= span.end <= a@.len(),
        other.start <= other.end <= b@.len(),
    ensures
        same == (span.piece(a@).part == other.piece(b@).part),
{
    if span.kind != other.kind {
        return false;
    }
    match span.kind {
        PartKind::Normal => {},
        _ => {
            return true;
        },
    }
    let size: usize = span.end - span.start;
    let ghost name = a@.subrange(span.start as int, span.end as int);
    let ghost wanted = b@.subrange(other.start as int, other.end as int);
    if size != other.end - other.start {
        assert(name.len() != wanted.len());
        return false;
    }
    for i in 0..size
        invariant
            span.start <= span.end <= a@.len(),
            other.start <= other.end <= b@.len(),
            size == span.end - span.start,
            size == other.end - other.start,
            name == a@.subrange(span.start as int, span.end as int),
            wanted == b@.subrange(other.start as int, other.end as int),
            span.piece(a@).part == Part::Normal(name),
            other.piece(b@).part == Part::Normal(wanted),
            forall|k: int| 0 <= k < i ==> name[k] == wanted[k],
    {
        if a[span.start + i] != b[other.start + i] {
            assert(name[i as int] != wanted[i as int]);
            return false;
        }
        assert(name[i as int] == wanted[i as int]);
    }
    assert(name =~= wanted);
    true
}

/// Whether this is the answer to a request for a path: the path to open, or the
/// denial.
pub open spec fn is_confined(
    path: Result<String, Status>,
    root: Seq<char>,
    requested: Seq<char>,
) -> bool {
    match confined(root, requested) {
        Some(relative) => path matches Ok(text) && text@ == relative,
        None => path matches Err(status) && status.says(Code::PermissionDenied, denied_text()),
    }
}

/// Converts an archive path to a relative path without parent traversal.
/// Symbolic links are the business of whoever opens the file.
pub fn relative_archive_path(root: &str, requested: &str) -> (path: Result<String, Status>)
    ensures
        is_confined(path, root@, requested@),
{
    let chars: Vec<char> = to_chars(requested);
    let found: Vec<Span> = spans(&chars);
    let count: usize = found.len();
    for i in 0..count
        invariant
            chars@ == requested@,
            count == found.len(),
            span_pieces(chars@, found@) == pieces(chars@),
            forall|k: int| 0 <= k < i ==> parts(requested@)[k] != Part::Parent,
    {
        assert(span_pieces(chars@, found@)[i as int] == found@[i as int].piece(chars@));
        assert(parts(requested@)[i as int] == found@[i as int].piece(chars@).part);
        if found[i].kind == PartKind::Parent {
            assert(parts(requested@).contains(Part::Parent));
            return Err(
                Status::new(
                    Code::PermissionDenied,
                    "archive_path must stay inside the configured local file root",
                ),
            );
        }
    }
    assert(span_pieces(chars@, found@).len() == count);
    assert(!parts(requested@).contains(Part::Parent));
    if chars.len() == 0 || chars[0] != '/' {
        return Ok(requested.to_owned());
    }
    let root_chars: Vec<char> = to_chars(root);
    let root_found: Vec<Span> = spans(&root_chars);
    let depth: usize = root_found.len();
    assert(span_pieces(root_chars@, root_found@).len() == depth);
    let mut inside: bool = depth <= count;
    let mut i: usize = 0;
    while inside && i < depth
        invariant
            chars@ == requested@,
            root_chars@ == root@,
            count == found.len(),
            depth == root_found.len(),
            count == parts(requested@).len(),
            depth == parts(root@).len(),
            i <= depth,
            inside ==> depth <= count,
            span_pieces(chars@, found@) == pieces(chars@),
            span_pieces(root_chars@, root_found@) == pieces(root_chars@),
            forall|k: int|
                0 <= k < found@.len() ==> (#[trigger] found@[k]).start <= found@[k].end <= chars@.len(),
            forall|k: int|
                0 <= k < root_found@.len() ==> (#[trigger] root_found@[k]).start
                    <= root_found@[k].end <= root_chars@.len(),
            inside ==> parts(root@).take(i as int) == parts(requested@).take(i as int),
            !inside ==> !parts(root@).is_prefix_of(parts(requested@)),
        decreases depth - i,
    {
        assert(span_pieces(chars@, found@)[i as int] == found@[i as int].piece(chars@));
        assert(span_pieces(root_chars@, root_found@)[i as int] == root_found@[i as int].piece(
            root_chars@,
        ));
        assert(parts(requested@)[i as int] == found@[i as int].piece(chars@).part);
        assert(parts(root@)[i as int] == root_found@[i as int].piece(root_chars@).part);
        inside = same_part(&chars, found[i], &root_chars, root_found[i]);
        proof {
            if inside {
                assert(parts(root@).take(i + 1) =~= parts(root@).take(i as int).push(
                    parts(root@)[i as int],
                ));
                assert(parts(requested@).take(i + 1) =~= parts(requested@).take(i as int).push(
                    parts(requested@)[i as int],
                ));
            }
        }
        i += 1;
    }
    if !inside {
        return Err(
            Status::new(
                Code::PermissionDenied,
                "archive_path must stay inside the configured local file root",
            ),
        );
    }
    assert(parts(root@).take(depth as int) =~= parts(root@));
    assert(parts(root@) =~= parts(requested@).subrange(0, depth as int));
    if depth == count {
        return Ok(String::new());
    }
    proof {
        assert(span_pieces(chars@, found@)[depth as int] == found@[depth as int].piece(chars@));
        assert(span_pieces(chars@, found@)[count - 1] == found@[count - 1].piece(chars@));
        lemma_pieces_ordered(requested@, depth as int, count - 1);
    }
    Ok(requested.substring_char(found[depth].start, found[count - 1].end).to_owned())
}

/// From the start of a component on, a path has that component and those that
/// follow it.
proof fn lemma_pieces_suffix(path: Seq<char>, from: int, count: int)
    requires
        0 <= from,
        0 <= count < pieces_from(path, from).len(),
    ensures
        ({
            let start = pieces_from(path, from)[count].start;
            &&& from <= start < path.len()
            &&& pieces_from(path, start) == pieces_from(path, from).skip(count)
            &&& piece_between(path, start, name_end(path, start)).len() == 1
        }),
    decreases path.len() + 1 - from,
{
    lemma_pieces_inside(path, from);
    lemma_name_end(path, from);
    let end = name_end(path, from);
    let head = piece_between(path, from, end);
    if count >= head.len() {
        lemma_pieces_suffix(path, end + 1, count - head.len());
        assert(pieces_from(path, from)[count] == pieces_from(path, end + 1)[count - head.len()]);
        assert(pieces_from(path, from).skip(count) =~= pieces_from(path, end + 1).skip(
            count - head.len(),
        ));
    } else {
        assert(pieces_from(path, from).skip(0) =~= pieces_from(path, from));
    }
}

/// Behind the last component a path has no more components.
proof fn lemma_last_piece(path: Seq<char>, from: int)
    requires
        0 <= from,
        pieces_from(path, from).len() > 0,
    ensures
        ({
            let end = pieces_from(path, from).last().end;
            &&& from < end <= path.len()
            &&& end == path.len() || path[end] == '/'
            &&& pieces_from(path, end + 1).len() == 0
        }),
    decreases path.len() + 1 - from,
{
    lemma_pieces_inside(path, from);
    lemma_name_end(path, from);
    let end = name_end(path, from);
    if pieces_from(path, end + 1).len() > 0 {
        lemma_last_piece(path, end + 1);
        assert(pieces_from(path, from).last() == pieces_from(path, end + 1).last());
    }
}

/// A name inside a window of a path ends where it ends in the path.
proof fn lemma_name_end_in_window(path: Seq<char>, start: int, end: int, from: int)
    requires
        0 <= start <= from <= end <= path.len(),
        end == path.len() || path[end] == '/',
    ensures
        name_end(path.subrange(start, end), from - start) == name_end(path, from) - start,
        name_end(path, from) <= end,
    decreases end - from,
{
    if from < end {
        assert(path.subrange(start, end)[from - start] == path[from]);
        if path[from] != '/' {
            lemma_name_end_in_window(path, start, end, from + 1);
        }
    }
}

/// A window from the start of one component to the end of the last one has the
/// components of that stretch of the path.
proof fn lemma_pieces_in_window(path: Seq<char>, start: int, end: int, from: int)
    requires
        0 < start <= from <= end <= path.len(),
        end == path.len() || path[end] == '/',
        pieces_from(path, end + 1).len() == 0,
        piece_between(path, start, name_end(path, start)).len() == 1,
    ensures
        pieces_from(path.subrange(start, end), from - start).map_values(|piece: Piece| piece.part)
            == pieces_from(path, from).map_values(|piece: Piece| piece.part),
    decreases end - from,
{
    let window = path.subrange(start, end);
    let part = |piece: Piece| piece.part;
    if from < end {
        lemma_name_end_in_window(path, start, end, from);
        lemma_name_end(path, from);
        let stop = name_end(path, from);
        assert(window.subrange(from - start, stop - start) =~= path.subrange(from, stop));
        let head = piece_between(path, from, stop);
        let shifted = piece_between(window, from - start, stop - start);
        assert(head.map_values(part) =~= shifted.map_values(part));
        let rest = pieces_from(path, stop + 1);
        let shifted_rest = pieces_from(window, stop - start + 1);
        if stop < end {
            lemma_pieces_in_window(path, start, end, stop + 1);
        }
        assert(rest.map_values(part) =~= shifted_rest.map_values(part));
        assert((head + rest).map_values(part) =~= head.map_values(part) + rest.map_values(part));
        assert((shifted + shifted_rest).map_values(part) =~= shifted.map_values(part)
            + shifted_rest.map_values(part));
    } else {
        if end < path.len() {
            assert(name_end(path, end) == end);
            assert(path.subrange(end, end) =~= Seq::<char>::empty());
        }
        assert(pieces_from(path, from) =~= Seq::<Piece>::empty());
        assert(pieces_from(window, from - start) =~= Seq::<Piece>::empty());
    }
}

/// What is left of an absolute path without its first components is a relative
/// path that has the other components.
proof fn lemma_remainder(path: Seq<char>, count: int)
    requires
        is_absolute(path),
        1 <= count <= parts(path).len(),
    ensures
        !is_absolute(remainder(path, count)),
        parts(remainder(path, count)) == parts(path).skip(count),
{
    let all = pieces(path);
    let part = |piece: Piece| piece.part;
    let rest = remainder(path, count);
    if count < all.len() {
        lemma_pieces_suffix(path, 0, count - 1);
        lemma_last_piece(path, 0);
        lemma_pieces_from_ordered(path, 0, count - 1, all.len() - 2);
        let start = all[count].start;
        let end = all.last().end;
        lemma_name_end(path, start);
        assert(path.subrange(start, start) =~= Seq::<char>::empty());
        assert(name_end(path, start) > start);
        assert(rest[0] == path[start]);
        assert(start > 0) by {
            assert(path[0] == '/');
        }
        lemma_pieces_in_window(path, start, end, start);
        assert(pieces_from(path, start) == pieces_from(path, 0).skip(count - 1));
        assert(parts(rest) =~= pieces_from(path, start).map_values(part));
        assert(pieces_from(path, 0).skip(count - 1) =~= all.skip(count));
        assert(all.skip(count).map_values(part) =~= parts(path).skip(count));
    } else {
        assert(parts(rest) =~= parts(path).skip(count));
    }
}

/// A request that is not denied opens a relative path without parent
/// components; where it named an absolute path, that path is the root followed
/// by the relative path.
pub proof fn law_archive_path_stays_inside_root(root: Seq<char>, requested: Seq<char>)
    requires
        is_absolute(root),
        confined(root, requested) is Some,
    ensures
        !is_absolute(confined(root, requested)->0),
        !parts(confined(root, requested)->0).contains(Part::Parent),
        is_absolute(requested) ==> parts(requested) == parts(root) + parts(
            confined(root, requested)->0,
        ),
        !is_absolute(requested) ==> confined(root, requested)->0 == requested,
{
    if is_absolute(requested) {
        let depth = parts(root).len() as int;
        lemma_remainder(requested, depth);
        let relative = remainder(requested, depth);
        assert(parts(requested) =~= parts(root) + parts(relative));
        if parts(relative).contains(Part::Parent) {
            let i = choose|i: int|
                0 <= i < parts(relative).len() && parts(relative)[i] == Part::Parent;
            assert(parts(requested)[depth + i] == Part::Parent);
        }
    }
}

/// The path `relative` beneath the directory `root`.
pub open spec fn beneath(root: Seq<char>, relative: Seq<char>) -> Seq<char> {
    root + seq!['/'] + relative
}

/// Components without a leading `.`.
pub open spec fn without_current(all: Seq<Part>) -> Seq<Part> {
    if all.len() > 0 && all[0] == Part::Current {
        all.skip(1)
    } else {
        all
    }
}

/// The components of a stretch of a path.
#[verifier::opaque]
spec fn parts_from(path: Seq<char>, from: int) -> Seq<Part> {
    pieces_from(path, from).map_values(|piece: Piece| piece.part)
}

/// The components of a stretch are those of its first name and of the rest.
proof fn lemma_parts_from(path: Seq<char>, from: int)
    requires
        0 <= from,
    ensures
        parts_from(path, from) == if from < path.len() {
            piece_between(path, from, name_end(path, from)).map_values(|piece: Piece| piece.part)
                + parts_from(path, name_end(path, from) + 1)
        } else {
            Seq::empty()
        },
{
    reveal(parts_from);
    let part = |piece: Piece| piece.part;
    if from < path.len() {
        let head = piece_between(path, from, name_end(path, from));
        let rest = pieces_from(path, name_end(path, from) + 1);
        assert((head + rest).map_values(part) =~= head.map_values(part) + rest.map_values(part));
    } else {
        assert(parts_from(path, from) =~= Seq::<Part>::empty());
    }
}

/// In a path beneath a directory, the components of the directory come first.
proof fn lemma_parts_of_root(root: Seq<char>, relative: Seq<char>, from: int)
    requires
        0 <= from <= root.len(),
    ensures
        parts_from(beneath(root, relative), from) == parts_from(root, from) + parts_from(
            beneath(root, relative),
            root.len() as int + 1,
        ),
    decreases root.len() - from,
{
    let path = beneath(root, relative);
    let part = |piece: Piece| piece.part;
    let behind = root.len() as int + 1;
    assert(path.subrange(0, root.len() as int) =~= root);
    assert(path[root.len() as int] == '/');
    lemma_name_end_in_window(path, 0, root.len() as int, from);
    let end = name_end(path, from);
    lemma_name_end(path, from);
    lemma_parts_from(path, from);
    lemma_parts_from(root, behind);
    lemma_parts_from(root, from);
    if from < root.len() {
        assert(path.subrange(from, end) =~= root.subrange(from, end));
        assert(piece_between(path, from, end).map_values(part) =~= piece_between(
            root,
            from,
            end,
        ).map_values(part));
        if end < root.len() {
            lemma_parts_of_root(root, relative, end + 1);
        }
        assert(parts_from(path, from) =~= parts_from(root, from) + parts_from(path, behind));
    } else {
        assert(path.subrange(from, end) =~= Seq::<char>::empty());
        assert(parts_from(path, from) =~= parts_from(root, from) + parts_from(path, behind));
    }
}

/// In a path beneath a directory, a name of the relative path stands for what it
/// stands for there, but for a leading `.`, which stands for nothing.
proof fn lemma_name_of_relative(root: Seq<char>, relative: Seq<char>, from: int)
    requires
        0 <= from < relative.len(),
    ensures
        ({
            let path = beneath(root, relative);
            let part = |piece: Piece| piece.part;
            let shift = root.len() as int + 1;
            let end = name_end(relative, from);
            let head = piece_between(path, shift + from, shift + end).map_values(part);
            &&& name_end(path, shift + from) == shift + end
            &&& head == if from == 0 && relative.subrange(0, end) == seq!['.'] {
                Seq::empty()
            } else {
                piece_between(relative, from, end).map_values(part)
            }
        }),
{
    let path = beneath(root, relative);
    let part = |piece: Piece| piece.part;
    let shift = root.len() as int + 1;
    let end = name_end(relative, from);
    assert(path.subrange(shift, path.len() as int) =~= relative);
    lemma_name_end_in_window(path, shift, path.len() as int, shift + from);
    lemma_name_end(relative, from);
    assert(path.subrange(shift + from, shift + end) =~= relative.subrange(from, end));
    let head = piece_between(path, shift + from, shift + end).map_values(part);
    if from == 0 && relative.subrange(0, end) == seq!['.'] {
        assert(head =~= Seq::<Part>::empty());
    } else {
        assert(head =~= piece_between(relative, from, end).map_values(part));
    }
}

/// In a path beneath a directory, what follows a name of the relative path is
/// what follows it there.
proof fn lemma_parts_behind(root: Seq<char>, relative: Seq<char>, from: int)
    requires
        0 < from,
    ensures
        parts_from(beneath(root, relative), root.len() as int + 1 + from) == parts_from(
            relative,
            from,
        ),
    decreases relative.len() + 1 - from,
{
    let path = beneath(root, relative);
    let shift = root.len() as int + 1;
    if from < relative.len() {
        lemma_name_end(relative, from);
        lemma_name_of_relative(root, relative, from);
        lemma_parts_behind(root, relative, name_end(relative, from) + 1);
    }
    lemma_parts_from(path, shift + from);
    lemma_parts_from(relative, from);
}

/// In a path beneath a directory, the components of the relative path come
/// last, but for a leading `.`.
proof fn lemma_parts_of_relative(root: Seq<char>, relative: Seq<char>)
    ensures
        parts_from(beneath(root, relative), root.len() as int + 1) == without_current(
            parts_from(relative, 0),
        ),
{
    let path = beneath(root, relative);
    let part = |piece: Piece| piece.part;
    let shift = root.len() as int + 1;
    lemma_parts_from(path, shift);
    lemma_parts_from(relative, 0);
    if relative.len() > 0 {
        let end = name_end(relative, 0);
        lemma_name_end(relative, 0);
        lemma_name_of_relative(root, relative, 0);
        lemma_parts_behind(root, relative, end + 1);
        let rest = parts_from(relative, end + 1);
        if relative.subrange(0, end) == seq!['.'] {
            assert(piece_between(relative, 0, end).map_values(part) =~= seq![Part::Current]);
            assert((seq![Part::Current] + rest).skip(1) =~= rest);
            assert(Seq::<Part>::empty() + rest =~= rest);
        } else {
            lemma_current_is_first(relative, end);
        }
    }
}

/// `.` is a component only where a path starts with it.
proof fn lemma_current_is_first(path: Seq<char>, end: int)
    requires
        path.len() > 0,
        end == name_end(path, 0),
        path.subrange(0, end) != seq!['.'],
    ensures
        forall|i: int| 0 <= i < parts_from(path, 0).len() ==> parts_from(path, 0)[i] != Part::Current,
{
    let part = |piece: Piece| piece.part;
    lemma_name_end(path, 0);
    lemma_parts_from(path, 0);
    lemma_no_current_behind(path, end + 1);
    let head = piece_between(path, 0, end).map_values(part);
    let rest = parts_from(path, end + 1);
    assert forall|i: int| 0 <= i < (head + rest).len() implies (head + rest)[i] != Part::Current by {
        if i >= head.len() {
            assert((head + rest)[i] == rest[i - head.len()]);
        }
    }
}

/// Behind the start of a path, `.` is no component.
proof fn lemma_no_current_behind(path: Seq<char>, from: int)
    requires
        0 < from,
    ensures
        forall|i: int|
            0 <= i < parts_from(path, from).len() ==> parts_from(path, from)[i] != Part::Current,
    decreases path.len() + 1 - from,
{
    lemma_parts_from(path, from);
    if from < path.len() {
        let part = |piece: Piece| piece.part;
        lemma_name_end(path, from);
        let end = name_end(path, from);
        lemma_no_current_behind(path, end + 1);
        let head = piece_between(path, from, end).map_values(part);
        let rest = parts_from(path, end + 1);
        assert forall|i: int| 0 <= i < (head + rest).len() implies (head + rest)[i]
            != Part::Current by {
            if i >= head.len() {
                assert((head + rest)[i] == rest[i - head.len()]);
            }
        }
    }
}

/// The components of a path are those of the stretch from its start, behind the
/// root of an absolute path.
proof fn lemma_parts(path: Seq<char>)
    ensures
        parts(path) == if is_absolute(path) {
            seq![Part::Root] + parts_from(path, 0)
        } else {
            parts_from(path, 0)
        },
{
    reveal(parts_from);
    if is_absolute(path) {
        assert(parts(path) =~= seq![Part::Root] + parts_from(path, 0));
    }
}

/// Absolute paths under the root are served: a path beneath the root, spelled
/// out in full, opens what the relative path opens. The root is canonical, so
/// that it has no parent components itself.
pub proof fn law_absolute_path_under_root_is_served(root: Seq<char>, relative: Seq<char>)
    requires
        is_absolute(root),
        !parts(root).contains(Part::Parent),
        !is_absolute(relative),
        !parts(relative).contains(Part::Parent),
    ensures
        confined(root, relative) == Some(relative),
        confined(root, beneath(root, relative)) is Some,
        parts(confined(root, beneath(root, relative))->0) == without_current(parts(relative)),
{
    let path = beneath(root, relative);
    let depth = parts(root).len() as int;
    let rest = without_current(parts(relative));
    assert(path[0] == root[0]);
    lemma_parts_of_root(root, relative, 0);
    lemma_parts_of_relative(root, relative);
    lemma_parts(relative);
    lemma_parts(root);
    lemma_parts(path);
    assert(parts(path) =~= parts(root) + rest);
    if parts(path).contains(Part::Parent) {
        let i = choose|i: int| 0 <= i < parts(path).len() && parts(path)[i] == Part::Parent;
        if i < depth {
            assert(parts(root)[i] == Part::Parent);
        } else {
            let dropped: int = parts(relative).len() - rest.len();
            assert(rest[i - depth] == Part::Parent);
            assert(parts(relative)[i - depth + dropped] == Part::Parent);
        }
    }
    assert(parts(root) =~= parts(path).subrange(0, depth));
    lemma_remainder(path, depth);
    assert(parts(path).skip(depth) =~= rest);
}

/// Whether a stretch of a path is a name: it is not empty, holds no slash, and
/// stands between slashes or the ends of the path.
pub open spec fn is_name(path: Seq<char>, start: int, end: int) -> bool {
    &&& 0 <= start < end <= path.len()
    &&& start == 0 || path[start - 1] == '/'
    &&& end == path.len() || path[end] == '/'
    &&& forall|i: int| start <= i < end ==> #[trigger] path[i] != '/'
}

/// Whether a component is the one that the name at its place spells.
pub open spec fn is_spelled(path: Seq<char>, piece: Piece) -> bool {
    let name = path.subrange(piece.start, piece.end);
    &&& is_name(path, piece.start, piece.end)
    &&& name == seq!['.', '.'] ==> piece.part == Part::Parent
    &&& name == seq!['.'] ==> piece.part == Part::Current && piece.start == 0
    &&& name != seq!['.', '.'] && name != seq!['.'] ==> piece.part == Part::Normal(name)
}

/// The components from a place on are what the names there spell.
proof fn lemma_pieces_are_names(path: Seq<char>, from: int)
    requires
        0 <= from,
        from == 0 || from > path.len() || path[from - 1] == '/',
    ensures
        forall|i: int|
            0 <= i < pieces_from(path, from).len() ==> is_spelled(
                path,
                #[trigger] pieces_from(path, from)[i],
            ),
    decreases path.len() + 1 - from,
{
    if from < path.len() {
        lemma_name_end(path, from);
        let end = name_end(path, from);
        let head = piece_between(path, from, end);
        let rest = pieces_from(path, end + 1);
        lemma_pieces_are_names(path, end + 1);
        let name = path.subrange(from, end);
        if end == from {
            assert(name =~= Seq::<char>::empty());
        }
        assert(seq!['.', '.'].len() == 2 && seq!['.'].len() == 1);
        assert forall|i: int| 0 <= i < pieces_from(path, from).len() implies is_spelled(
            path,
            #[trigger] pieces_from(path, from)[i],
        ) by {
            if i >= head.len() {
                assert(pieces_from(path, from)[i] == rest[i - head.len()]);
            }
        }
    }
}

/// Components do not overlap.
proof fn lemma_pieces_apart(path: Seq<char>, from: int, i: int, j: int)
    requires
        0 <= from,
        0 <= i < j < pieces_from(path, from).len(),
    ensures
        pieces_from(path, from)[i].end <= pieces_from(path, from)[j].start,
    decreases path.len() + 1 - from,
{
    lemma_name_end(path, from);
    let end = name_end(path, from);
    let head = piece_between(path, from, end);
    let rest = pieces_from(path, end + 1);
    assert(pieces_from(path, from) == head + rest);
    assert(pieces_from(path, from)[j] == rest[j - head.len()]);
    if i >= head.len() {
        lemma_pieces_apart(path, end + 1, i - head.len(), j - head.len());
    } else {
        lemma_pieces_inside(path, end + 1);
    }
}

/// Every name from a place on is a component, but for a `.` behind the start.
proof fn lemma_names_are_pieces(path: Seq<char>, from: int, start: int, end: int)
    requires
        0 <= from <= start,
        from == 0 || path[from - 1] == '/',
        is_name(path, start, end),
        start == 0 || path.subrange(start, end) != seq!['.'],
    ensures
        exists|i: int|
            0 <= i < pieces_from(path, from).len() && (#[trigger] pieces_from(path, from)[i]).start
                == start && pieces_from(path, from)[i].end == end,
    decreases path.len() - from,
{
    lemma_name_end(path, from);
    let stop = name_end(path, from);
    let head = piece_between(path, from, stop);
    let rest = pieces_from(path, stop + 1);
    let all = pieces_from(path, from);
    assert(all == head + rest);
    if from == start {
        if stop < end {
            assert(path[stop] != '/');
        }
        if end < stop {
            assert(path[end] != '/');
        }
        assert(path.subrange(start, end).len() > 0);
        assert(all[0] == head[0]);
        assert(all[0].start == start && all[0].end == end);
    } else {
        assert(path[start - 1] == '/');
        if stop >= start {
            assert(path[start - 1] != '/');
        }
        lemma_names_are_pieces(path, stop + 1, start, end);
        let k = choose|k: int| 0 <= k < rest.len() && (#[trigger] rest[k]).start == start && rest[k].end == end;
        assert(all[head.len() + k] == rest[k]);
    }
}

/// The components of a path are its names, in order, behind the root where it
/// starts with a slash: each name is the component that it spells, `..` the parent
/// wherever it stands, and only a `.` behind the start is left out.
pub proof fn law_components_are_the_names(path: Seq<char>)
    ensures
        ({
            let all = pieces(path);
            let first: int = if path.len() > 0 && path[0] == '/' {
                1
            } else {
                0
            };
            &&& all.len() >= first
            &&& first == 1 ==> all[0].part == Part::Root
            &&& forall|i: int| first <= i < all.len() ==> is_spelled(path, #[trigger] all[i])
            &&& forall|i: int, j: int|
                0 <= i < j < all.len() ==> (#[trigger] all[i]).end <= (#[trigger] all[j]).start
            &&& forall|start: int, end: int|
                #[trigger] is_name(path, start, end) && (start == 0 || path.subrange(start, end)
                    != seq!['.']) ==> exists|i: int|
                    first <= i < all.len() && (#[trigger] all[i]).start == start && all[i].end == end
        }),
        parts(path).len() == pieces(path).len(),
        forall|i: int|
            0 <= i < pieces(path).len() ==> #[trigger] parts(path)[i] == pieces(path)[i].part,
{
    let all = pieces(path);
    let names = pieces_from(path, 0);
    let first: int = if path.len() > 0 && path[0] == '/' {
        1
    } else {
        0
    };
    lemma_pieces_are_names(path, 0);
    assert forall|i: int| first <= i < all.len() implies is_spelled(path, #[trigger] all[i]) by {
        assert(all[i] == names[i - first]);
    }
    assert forall|i: int, j: int| 0 <= i < j < all.len() implies (#[trigger] all[i]).end <= (
    #[trigger] all[j]).start by {
        if i >= first {
            lemma_pieces_apart(path, 0, i - first, j - first);
        } else {
            assert(is_spelled(path, all[j]));
            assert(path[all[j].start] != '/');
        }
    }
    assert forall|start: int, end: int|
        #[trigger] is_name(path, start, end) && (start == 0 || path.subrange(start, end) != seq![
            '.',
        ]) implies exists|i: int|
        first <= i < all.len() && (#[trigger] all[i]).start == start && all[i].end == end by {
        lemma_names_are_pieces(path, 0, start, end);
        let k = choose|k: int|
            0 <= k < names.len() && (#[trigger] names[k]).start == start && names[k].end == end;
        assert(all[first + k] == names[k]);
    }
}

/// A path has a parent component exactly where two dots stand between slashes or
/// the ends of the path.
proof fn lemma_parent_is_two_dots(path: Seq<char>)
    ensures
        parts(path).contains(Part::Parent) <==> exists|at: int|
            #[trigger] is_name(path, at, at + 2) && path[at] == '.' && path[at + 1] == '.',
{
    law_components_are_the_names(path);
    let all = pieces(path);
    if parts(path).contains(Part::Parent) {
        let i = choose|i: int| 0 <= i < parts(path).len() && parts(path)[i] == Part::Parent;
        let piece = all[i];
        assert(parts(path)[i] == piece.part);
        assert(is_spelled(path, piece));
        let name = path.subrange(piece.start, piece.end);
        assert(name == seq!['.', '.']);
        assert(name.len() == 2);
        assert(name[0] == '.' && name[1] == '.');
        assert(piece.end == piece.start + 2);
        assert(is_name(path, piece.start, piece.start + 2));
    }
    if exists|at: int|
        #[trigger] is_name(path, at, at + 2) && path[at] == '.' && path[at + 1] == '.' {
        let at = choose|at: int|
            #[trigger] is_name(path, at, at + 2) && path[at] == '.' && path[at + 1] == '.';
        assert(path.subrange(at, at + 2) =~= seq!['.', '.']);
        assert(seq!['.', '.'].len() == 2 && seq!['.'].len() == 1);
        let i = choose|i: int|
            0 <= i < all.len() && (#[trigger] all[i]).start == at && all[i].end == at + 2;
        if i == 0 && path[0] == '/' {
            assert(all[0] == (Piece { part: Part::Root, start: 0, end: 1 }));
        }
        assert(is_spelled(path, all[i]));
        assert(parts(path)[i] == Part::Parent);
    }
}

/// Two dots between slashes, or at an end, are never served, in whatever path; a
/// path without them that does not start with a slash is always served, as it was
/// asked for; and one that does is served exactly where it starts with the
/// components of the root.
pub proof fn law_what_is_served(root: Seq<char>, requested: Seq<char>)
    ensures
        ({
            let climbs = exists|at: int|
                #[trigger] is_name(requested, at, at + 2) && requested[at] == '.' && requested[at
                    + 1] == '.';
            &&& climbs ==> confined(root, requested) is None
            &&& !climbs && (requested.len() == 0 || requested[0] != '/') ==> confined(
                root,
                requested,
            ) == Some(requested)
            &&& !climbs && requested.len() > 0 && requested[0] == '/' ==> (confined(
                root,
                requested,
            ) is Some <==> parts(root).len() <= parts(requested).len() && forall|i: int|
                0 <= i < parts(root).len() ==> #[trigger] parts(root)[i] == parts(requested)[i])
        }),
{
    lemma_parent_is_two_dots(requested);
    if parts(root).len() <= parts(requested).len() && (forall|i: int|
        0 <= i < parts(root).len() ==> #[trigger] parts(root)[i] == parts(requested)[i]) {
        assert(parts(root) =~= parts(requested).subrange(0, parts(root).len() as int));
    }
    if parts(root).is_prefix_of(parts(requested)) {
        assert forall|i: int| 0 <= i < parts(root).len() implies #[trigger] parts(root)[i]
            == parts(requested)[i] by {
            assert(parts(requested).subrange(0, parts(root).len() as int)[i] == parts(requested)[i]);
        }
    }
}

/// A served absolute path is opened by its own text behind the root: what is opened
/// is a stretch of what was asked for, whose components, behind those of the root,
/// are those that were asked for.
pub proof fn law_opened_path_is_a_stretch_of_the_request(root: Seq<char>, requested: Seq<char>)
    requires
        root.len() > 0,
        root[0] == '/',
        confined(root, requested) is Some,
        requested.len() > 0,
        requested[0] == '/',
    ensures
        ({
            let opened = confined(root, requested)->0;
            &&& opened.len() == 0 || opened[0] != '/'
            &&& opened.len() == 0 || exists|start: int, end: int|
                0 <= start <= end <= requested.len() && opened == #[trigger] requested.subrange(
                    start,
                    end,
                )
            &&& parts(requested) == parts(root) + parts(opened)
        }),
{
    law_archive_path_stays_inside_root(root, requested);
    law_components_are_the_names(requested);
    let opened = confined(root, requested)->0;
    let all = pieces(requested);
    let count = parts(root).len() as int;
    if count < all.len() {
        let start = all[count].start;
        let end = all.last().end;
        lemma_parts(root);
        assert(all.last() == all[all.len() - 1]);
        assert(count >= 1) by {
            law_components_are_the_names(root);
        }
        assert(is_spelled(requested, all[count]));
        assert(is_spelled(requested, all[all.len() - 1]));
        if count < all.len() - 1 {
            assert(all[count].end <= all[all.len() - 1].start);
        }
        assert(opened == requested.subrange(start, end));
    }
}

/// A request is answered with a path exactly where it is served, and is denied
/// everywhere else: two dots between slashes, or at an end, are denied whatever the
/// root; without them, a path that does not start with a slash is answered with
/// itself.
pub proof fn law_request_is_answered_or_denied(
    path: Result<String, Status>,
    root: Seq<char>,
    requested: Seq<char>,
)
    requires
        is_confined(path, root, requested),
    ensures
        ({
            let climbs = exists|at: int|
                #[trigger] is_name(requested, at, at + 2) && requested[at] == '.' && requested[at
                    + 1] == '.';
            &&& climbs ==> path is Err
            &&& !climbs && (requested.len() == 0 || requested[0] != '/') ==> (path matches Ok(text)
                && text@ == requested)
            &&& path matches Err(status) ==> status.code == Code::PermissionDenied
                && status.message@ == "archive_path must stay inside the configured local file root"@
            &&& path matches Ok(text) ==> confined(root, requested) == Some(text@)
        }),
{
    law_what_is_served(root, requested);
}

} // verus!
