//! Paths as text: the lexical rules by which a directive's path is turned
//! into the path of a file.
//!
//! A path is a sequence of characters in which `/` separates the segments
//! and a leading `/` is the root marker. An empty segment and the segment
//! `.` name nothing: where a path is cut, what names nothing at the cut is
//! dropped, and a leading `.` alone stays. Nothing here looks at a file
//! system, so `..` and links are left to it.

use crate::text::{chars_of, has_prefix, string_of};
use vstd::prelude::*;

verus! {

/// The character that separates the segments of a path.
pub open spec fn separator() -> char {
    '/'
}

/// Whether `p` begins with the root marker.
pub open spec fn is_absolute(p: Seq<char>) -> bool {
    p.len() > 0 && p[0] == separator()
}

/// Whether `p` begins with the segment `.`: alone, or before a separator.
pub open spec fn leads_with_current(p: Seq<char>) -> bool {
    p.len() > 0 && p[0] == '.' && (p.len() == 1 || p[1] == separator())
}

/// How many characters of `p` stand before its segments: one for the root
/// marker or for a leading `.`, else none.
pub open spec fn head_len(p: Seq<char>) -> int {
    if is_absolute(p) || leads_with_current(p) {
        1
    } else {
        0
    }
}

/// `p` without the segments at its end that name nothing, the empty ones
/// and the `.` ones, and without the separators before them. The first
/// `floor` characters stay.
pub open spec fn without_trailing_blanks(p: Seq<char>, floor: int) -> Seq<char>
    decreases p.len(),
{
    if floor < 0 || p.len() <= floor {
        p
    } else if p.last() == separator() {
        without_trailing_blanks(p.drop_last(), floor)
    } else if p.last() == '.' && p.len() - 1 == floor {
        p.drop_last()
    } else if p.last() == '.' && p[p.len() - 2] == separator() {
        without_trailing_blanks(p.take(p.len() - 2), floor)
    } else {
        p
    }
}

/// `p` without the segments at its start that name nothing, the empty ones
/// and the `.` ones, and without the separators after them.
pub open spec fn without_leading_blanks(p: Seq<char>) -> Seq<char>
    decreases p.len(),
{
    if p.len() == 0 {
        p
    } else if p[0] == separator() {
        without_leading_blanks(p.skip(1))
    } else if p[0] == '.' && p.len() == 1 {
        p.skip(1)
    } else if p[0] == '.' && p[1] == separator() {
        without_leading_blanks(p.skip(2))
    } else {
        p
    }
}

/// An absolute path made relative: `p` without its root marker and without
/// the segments that name nothing at either end of the rest. A relative
/// path stays as it is.
pub open spec fn without_root(p: Seq<char>) -> Seq<char> {
    if is_absolute(p) {
        without_trailing_blanks(without_leading_blanks(p.skip(1)), 0)
    } else {
        p
    }
}

/// `p` without the characters after its last separator. The first `floor`
/// characters stay.
pub open spec fn without_last_segment(p: Seq<char>, floor: int) -> Seq<char>
    decreases p.len(),
{
    if floor >= 0 && p.len() > floor && p.last() != separator() {
        without_last_segment(p.drop_last(), floor)
    } else {
        p
    }
}

/// The path of the directory that holds `p`: `p` without its last segment
/// that names something, and without what names nothing at the end of the
/// rest. The empty path and the root have none. A single segment has the
/// empty path as its parent, and so has `.`; a segment directly under the
/// root has the root.
pub open spec fn parent(p: Seq<char>) -> Option<Seq<char>> {
    let floor = head_len(p);
    let whole = without_trailing_blanks(p, floor);
    if whole.len() <= floor {
        if leads_with_current(p) {
            Some(Seq::<char>::empty())
        } else {
            None
        }
    } else {
        Some(without_trailing_blanks(without_last_segment(whole, floor), floor))
    }
}

/// The directory that a file's relative paths start from: its parent, or
/// `.` where it has none.
pub open spec fn directory_of(p: Seq<char>) -> Seq<char> {
    match parent(p) {
        Some(directory) => directory,
        None => seq!['.'],
    }
}

/// `rel` below `base`: an absolute `rel` stands for itself, and otherwise the
/// two are put together with exactly one separator between them, or none
/// where `base` is empty or ends in one.
pub open spec fn joined_path(base: Seq<char>, rel: Seq<char>) -> Seq<char> {
    if is_absolute(rel) {
        rel
    } else if base.len() == 0 || base.last() == separator() {
        base + rel
    } else {
        base.push(separator()) + rel
    }
}

/// The file that the path `file_path`, written in the file `source_file`,
/// stands for. An absolute path is taken below `base_directory`, without its
/// root marker. A relative path is taken below the directory of
/// `source_file`, whatever `base_directory` is.
pub open spec fn resolved(
    file_path: Seq<char>,
    source_file: Seq<char>,
    base_directory: Seq<char>,
) -> Seq<char> {
    if is_absolute(file_path) {
        joined_path(base_directory, without_root(file_path))
    } else {
        joined_path(directory_of(source_file), file_path)
    }
}

/// Whether `path` begins with the root marker.
pub fn path_is_absolute(path: &str) -> (r: bool)
    ensures
        r == is_absolute(path@),
{
    let chars = chars_of(path);
    chars.len() > 0 && chars[0] == '/'
}

/// The length of the first `end` characters without their trailing
/// segments that name nothing.
fn trailing_blanks_start(chars: &Vec<char>, end: usize, floor: usize) -> (r: usize)
    requires
        end <= chars.len(),
    ensures
        r <= end,
        floor <= end ==> floor <= r,
        chars@.take(r as int) == without_trailing_blanks(chars@.take(end as int), floor as int),
{
    let mut r: usize = end;
    while r > floor
        invariant
            r <= end <= chars.len(),
            floor <= end ==> floor <= r,
            without_trailing_blanks(chars@.take(end as int), floor as int)
                == without_trailing_blanks(chars@.take(r as int), floor as int),
        ensures
            r <= end,
            floor <= end ==> floor <= r,
            chars@.take(r as int) == without_trailing_blanks(
                chars@.take(end as int),
                floor as int,
            ),
        decreases r,
    {
        let ghost here = chars@.take(r as int);
        assert(here.last() == chars@[r - 1]);
        if chars[r - 1] == '/' {
            assert(here.drop_last() =~= chars@.take(r - 1));
            r -= 1;
        } else if chars[r - 1] == '.' && r - 1 == floor {
            assert(here.drop_last() =~= chars@.take(r - 1));
            r -= 1;
            break ;
        } else if chars[r - 1] == '.' && chars[r - 2] == '/' {
            assert(here[r - 2] == chars@[r - 2]);
            assert(here.take(r - 2) =~= chars@.take(r - 2));
            r -= 2;
        } else {
            proof {
                if r >= 2 {
                    assert(here[r - 2] == chars@[r - 2]);
                }
            }
            break ;
        }
    }
    r
}

/// The index of the first character behind the leading segments that name
/// nothing.
fn leading_blanks_end(chars: &Vec<char>, start: usize) -> (r: usize)
    requires
        start <= chars.len(),
    ensures
        start <= r <= chars.len(),
        chars@.skip(r as int) == without_leading_blanks(chars@.skip(start as int)),
{
    let mut r: usize = start;
    while r < chars.len()
        invariant
            start <= r <= chars.len(),
            without_leading_blanks(chars@.skip(start as int)) == without_leading_blanks(
                chars@.skip(r as int),
            ),
        ensures
            start <= r <= chars.len(),
            chars@.skip(r as int) == without_leading_blanks(chars@.skip(start as int)),
        decreases chars.len() - r,
    {
        let ghost here = chars@.skip(r as int);
        assert(here[0] == chars@[r as int]);
        if chars[r] == '/' {
            assert(here.skip(1) =~= chars@.skip(r + 1));
            r += 1;
        } else if chars[r] == '.' && r + 1 == chars.len() {
            assert(here.skip(1) =~= chars@.skip(r + 1));
            r += 1;
            break ;
        } else if chars[r] == '.' && chars[r + 1] == '/' {
            assert(here[1] == chars@[r + 1]);
            assert(here.skip(2) =~= chars@.skip(r + 2));
            r += 2;
        } else {
            proof {
                if here.len() > 1 {
                    assert(here[1] == chars@[r + 1]);
                }
            }
            break ;
        }
    }
    r
}

/// An absolute `path` made relative; a relative one as it is.
pub fn strip_root(path: &str) -> (r: String)
    ensures
        r@ == without_root(path@),
{
    let chars = chars_of(path);
    if chars.len() == 0 || chars[0] != '/' {
        return String::from_str(path);
    }
    let from = leading_blanks_end(&chars, 1);
    let to = trailing_blanks_within(&chars, from);
    string_of(&chars, from, to)
}

/// The end of the characters from `from` on without their trailing
/// segments that name nothing.
fn trailing_blanks_within(chars: &Vec<char>, from: usize) -> (r: usize)
    requires
        from <= chars.len(),
    ensures
        from <= r <= chars.len(),
        chars@.subrange(from as int, r as int) == without_trailing_blanks(
            chars@.skip(from as int),
            0,
        ),
{
    let ghost rest = chars@.skip(from as int);
    let mut r: usize = chars.len();
    assert(rest.take(rest.len() as int) =~= rest);
    while r > from
        invariant
            from <= r <= chars.len(),
            rest == chars@.skip(from as int),
            without_trailing_blanks(rest, 0) == without_trailing_blanks(rest.take(r - from), 0),
        ensures
            from <= r <= chars.len(),
            rest.take(r - from) == without_trailing_blanks(rest, 0),
        decreases r,
    {
        let ghost here = rest.take(r - from);
        assert(here.last() == chars@[r - 1]);
        if chars[r - 1] == '/' {
            assert(here.drop_last() =~= rest.take(r - 1 - from));
            r -= 1;
        } else if chars[r - 1] == '.' && r - 1 == from {
            assert(here.drop_last() =~= rest.take(r - 1 - from));
            r -= 1;
            break ;
        } else if chars[r - 1] == '.' && chars[r - 2] == '/' {
            assert(here[r - from - 2] == chars@[r - 2]);
            assert(here.take(r - from - 2) =~= rest.take(r - 2 - from));
            r -= 2;
        } else {
            proof {
                if r >= from + 2 {
                    assert(here[r - from - 2] == chars@[r - 2]);
                }
            }
            break ;
        }
    }
    assert(rest.take(r - from) =~= chars@.subrange(from as int, r as int));
    r
}

/// The length of the first `end` characters without their last segment.
fn last_segment_start(chars: &Vec<char>, end: usize, floor: usize) -> (r: usize)
    requires
        end <= chars.len(),
    ensures
        r <= end,
        floor <= end ==> floor <= r,
        chars@.take(r as int) == without_last_segment(chars@.take(end as int), floor as int),
{
    let mut r: usize = end;
    while r > floor && chars[r - 1] != '/'
        invariant
            r <= end <= chars.len(),
            floor <= end ==> floor <= r,
            without_last_segment(chars@.take(end as int), floor as int) == without_last_segment(
                chars@.take(r as int),
                floor as int,
            ),
        decreases r,
    {
        assert(chars@.take(r as int).drop_last() =~= chars@.take(r - 1));
        r -= 1;
    }
    r
}

/// The path of the directory that holds `path`, if it has one.
pub fn path_parent(path: &str) -> (r: Option<String>)
    ensures
        match r {
            Some(directory) => parent(path@) == Some(directory@),
            None => parent(path@) is None,
        },
{
    let chars = chars_of(path);
    assert(chars@.take(chars.len() as int) =~= chars@);
    let current = chars.len() > 0 && chars[0] == '.' && (chars.len() == 1 || chars[1] == '/');
    let floor: usize = if (chars.len() > 0 && chars[0] == '/') || current {
        1
    } else {
        0
    };
    let whole = trailing_blanks_start(&chars, chars.len(), floor);
    if whole <= floor {
        return if current {
            Some(String::new())
        } else {
            None
        };
    }
    let upper = last_segment_start(&chars, whole, floor);
    let kept = trailing_blanks_start(&chars, upper, floor);
    assert(chars@.take(kept as int) =~= chars@.subrange(0, kept as int));
    Some(string_of(&chars, 0, kept))
}

/// `rel` below `base`.
pub fn join(base: &str, rel: &str) -> (r: String)
    ensures
        r@ == joined_path(base@, rel@),
{
    if path_is_absolute(rel) {
        return String::from_str(rel);
    }
    let chars = chars_of(base);
    let mut out = String::from_str(base);
    if chars.len() > 0 && chars[chars.len() - 1] != '/' {
        out.push('/');
    }
    out.append(rel);
    out
}

/// The directory that the relative paths of the file at `path` start
/// from.
pub fn directory(path: &str) -> (r: String)
    ensures
        r@ == directory_of(path@),
{
    match path_parent(path) {
        Some(directory) => directory,
        None => {
            let mut here = String::new();
            here.push('.');
            assert(here@ =~= seq!['.']);
            here
        },
    }
}

/// The file that the path `file_path`, written in the file `source_file`,
/// stands for.
pub fn resolve(file_path: &str, source_file: &str, base_directory: &str) -> (r: String)
    ensures
        r@ == resolved(file_path@, source_file@, base_directory@),
{
    if path_is_absolute(file_path) {
        let relative = strip_root(file_path);
        join(base_directory, relative.as_str())
    } else {
        let beside = directory(source_file);
        join(beside.as_str(), file_path)
    }
}

/// What is left without trailing blanks is a beginning of the path.
pub proof fn lemma_without_trailing_blanks_prefix(p: Seq<char>, floor: int)
    ensures
        without_trailing_blanks(p, floor).len() <= p.len(),
        without_trailing_blanks(p, floor) == p.take(without_trailing_blanks(p, floor).len() as int),
    decreases p.len(),
{
    if floor < 0 || p.len() <= floor {
        assert(p.take(p.len() as int) =~= p);
    } else if p.last() == separator() {
        lemma_without_trailing_blanks_prefix(p.drop_last(), floor);
        let k = without_trailing_blanks(p.drop_last(), floor).len() as int;
        assert(p.drop_last().take(k) =~= p.take(k));
    } else if p.last() == '.' && p.len() - 1 == floor {
        assert(p.drop_last() =~= p.take(p.len() - 1));
    } else if p.last() == '.' && p[p.len() - 2] == separator() {
        let shorter = p.take(p.len() - 2);
        lemma_without_trailing_blanks_prefix(shorter, floor);
        let k = without_trailing_blanks(shorter, floor).len() as int;
        assert(shorter.take(k) =~= p.take(k));
    } else {
        assert(p.take(p.len() as int) =~= p);
    }
}

/// What is left without leading blanks does not begin with a separator.
pub proof fn lemma_without_leading_blanks_relative(p: Seq<char>)
    ensures
        !is_absolute(without_leading_blanks(p)),
    decreases p.len(),
{
    if p.len() == 0 {
    } else if p[0] == separator() {
        lemma_without_leading_blanks_relative(p.skip(1));
    } else if p[0] == '.' && p.len() == 1 {
    } else if p[0] == '.' && p[1] == separator() {
        lemma_without_leading_blanks_relative(p.skip(2));
    }
}

/// A path without its root is relative.
pub proof fn lemma_without_root_relative(p: Seq<char>)
    ensures
        !is_absolute(without_root(p)),
{
    if is_absolute(p) {
        let rest = without_leading_blanks(p.skip(1));
        lemma_without_leading_blanks_relative(p.skip(1));
        lemma_without_trailing_blanks_prefix(rest, 0);
    }
}

/// A relative path below a directory begins with the directory.
pub proof fn lemma_joined_below_base(base: Seq<char>, rel: Seq<char>)
    requires
        !is_absolute(rel),
    ensures
        has_prefix(joined_path(base, rel), base),
{
    assert(joined_path(base, rel).take(base.len() as int) =~= base);
}

/// An absolute path of a directive never leaves the base directory: what
/// it resolves to is the path without its root below the base directory,
/// and so begins with the base directory, whatever file holds the
/// directive.
pub proof fn lemma_absolute_stays_below_base(
    file_path: Seq<char>,
    source_file: Seq<char>,
    base_directory: Seq<char>,
)
    requires
        is_absolute(file_path),
    ensures
        resolved(file_path, source_file, base_directory) == joined_path(
            base_directory,
            without_root(file_path),
        ),
        has_prefix(resolved(file_path, source_file, base_directory), base_directory),
{
    lemma_without_root_relative(file_path);
    lemma_joined_below_base(base_directory, without_root(file_path));
}

/// A relative path of a directive is taken below the directory of the file
/// that holds the directive, and the base directory has no part in it.
pub proof fn lemma_relative_beside_source(
    file_path: Seq<char>,
    source_file: Seq<char>,
    base_directory: Seq<char>,
    other_base: Seq<char>,
)
    requires
        !is_absolute(file_path),
    ensures
        resolved(file_path, source_file, base_directory) == joined_path(
            directory_of(source_file),
            file_path,
        ),
        resolved(file_path, source_file, base_directory) == resolved(
            file_path,
            source_file,
            other_base,
        ),
        has_prefix(resolved(file_path, source_file, base_directory), directory_of(source_file)),
{
    lemma_joined_below_base(directory_of(source_file), file_path);
}

/// Whether `name` is one segment that names something: not empty, without
/// a separator, and not `.`.
pub open spec fn is_segment(name: Seq<char>) -> bool {
    &&& name.len() > 0
    &&& name != seq!['.']
    &&& forall|i: int| 0 <= i < name.len() ==> #[trigger] name[i] != separator()
}

/// Whether the path of a directory ends in a segment that names something,
/// so that nothing at its end is dropped when a file is named below it.
pub open spec fn ends_in_segment(directory: Seq<char>) -> bool {
    &&& directory.len() > head_len(directory)
    &&& without_trailing_blanks(directory, head_len(directory)) == directory
}

/// Taking the last segment away leaves what stood before it.
proof fn lemma_without_last_segment(upper: Seq<char>, name: Seq<char>, floor: int)
    requires
        forall|i: int| 0 <= i < name.len() ==> #[trigger] name[i] != separator(),
        0 <= floor <= upper.len(),
        upper.len() == floor || upper.last() == separator(),
    ensures
        without_last_segment(upper + name, floor) == upper,
    decreases name.len(),
{
    if name.len() == 0 {
        assert(upper + name =~= upper);
    } else {
        assert((upper + name).drop_last() =~= upper + name.drop_last());
        assert((upper + name).last() == name.last());
        lemma_without_last_segment(upper, name.drop_last(), floor);
    }
}

/// A segment that names something is not dropped from the end of a path.
proof fn lemma_segment_stays(upper: Seq<char>, name: Seq<char>, floor: int)
    requires
        is_segment(name),
        0 <= floor <= upper.len(),
        upper.len() == floor || upper.last() == separator(),
    ensures
        without_trailing_blanks(upper + name, floor) == upper + name,
{
    let path = upper + name;
    assert(path.last() == name[name.len() - 1]);
    if path.last() == '.' {
        if name.len() == 1 {
            assert(name =~= seq!['.']);
        } else {
            assert(path[path.len() - 2] == name[name.len() - 2]);
        }
    }
}

/// The directory of the file `name` in the directory `directory` is
/// `directory`.
pub proof fn lemma_directory_of_file(directory: Seq<char>, name: Seq<char>)
    requires
        is_segment(name),
        ends_in_segment(directory),
    ensures
        directory_of(directory.push(separator()) + name) == directory,
{
    let upper = directory.push(separator());
    let path = upper + name;
    let floor = head_len(directory);
    assert(path[0] == directory[0]);
    if directory.len() > 1 {
        assert(path[1] == directory[1]);
    } else {
        assert(path[1] == separator());
    }
    assert(head_len(path) == floor);
    lemma_segment_stays(upper, name, floor);
    lemma_without_last_segment(upper, name, floor);
    assert(upper.drop_last() =~= directory);
    assert(without_trailing_blanks(upper, floor) == without_trailing_blanks(directory, floor));
}

/// A path that is one segment has the empty path as its directory: there a
/// relative path resolves to itself.
pub proof fn lemma_directory_of_segment(name: Seq<char>, file_path: Seq<char>)
    requires
        is_segment(name),
        !is_absolute(file_path),
    ensures
        directory_of(name) == Seq::<char>::empty(),
        resolved(file_path, name, Seq::empty()) == file_path,
{
    let floor = head_len(name);
    let empty = Seq::<char>::empty();
    if floor == 0 {
        assert(empty + name =~= name);
        lemma_segment_stays(empty, name, 0);
        lemma_without_last_segment(empty, name, 0);
    } else {
        // A leading `.` that is the whole first segment: the name is `.`.
        assert(name[0] == '.');
        if name.len() > 1 {
            assert(name[1] != separator());
        }
    }
    assert(empty + file_path =~= file_path);
}

} // verus!
