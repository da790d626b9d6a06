//! File system paths, by the rules of Unix: bytes, separated by slashes into components.
//!
//! Two paths are the same if their components are, whatever their bytes: repeated and
//! trailing separators do not count, and neither does a `.` that does not lead the path.

use vstd::prelude::*;
use vstd::string::*;
use vstd::utf8::*;

verus! {

/// The byte that separates the pieces of a path.
pub const SEPARATOR: u8 = 47;

/// The byte that stands before a file name's extension.
pub const DOT: u8 = 46;

/// One component of a path.
#[derive(Debug)]
pub enum Component {
    /// The leading slash of an absolute path.
    Root,
    /// A leading `.`.
    Current,
    /// A `..`.
    Parent,
    /// The name of a file or a directory.
    Normal(Vec<u8>),
}

/// The mathematical value of a [`Component`].
pub enum Step {
    Root,
    Current,
    Parent,
    Normal(Seq<u8>),
}

impl Component {
    pub open spec fn view(&self) -> Step {
        match self {
            Component::Root => Step::Root,
            Component::Current => Step::Current,
            Component::Parent => Step::Parent,
            Component::Normal(name) => Step::Normal(name@),
        }
    }

    /// Whether two components are equal.
    pub fn same(&self, other: &Component) -> (r: bool)
        ensures
            r == (self@ == other@),
    {
        match (self, other) {
            (Component::Root, Component::Root) => true,
            (Component::Current, Component::Current) => true,
            (Component::Parent, Component::Parent) => true,
            (Component::Normal(a), Component::Normal(b)) => bytes_equal(a, b),
            _ => false,
        }
    }
}

/// The values of a list of components.
pub open spec fn steps_of(components: Seq<Component>) -> Seq<Step> {
    components.map_values(|c: Component| c.view())
}

/// Whether two byte strings are equal.
pub fn bytes_equal(a: &Vec<u8>, b: &Vec<u8>) -> (r: bool)
    ensures
        r == (a@ == b@),
{
    if a.len() != b.len() {
        return false;
    }
    let mut i: usize = 0;
    while i < a.len()
        invariant
            a@.len() == b@.len(),
            i <= a@.len(),
            forall|j: int| 0 <= j < i ==> a@[j] == b@[j],
        decreases a@.len() - i,
    {
        if a[i] != b[i] {
            return false;
        }
        i = i + 1;
    }
    assert(a@ =~= b@);
    true
}

/// The bytes of `text` from `from` up to `to`.
pub fn slice_of(text: &Vec<u8>, from: usize, to: usize) -> (r: Vec<u8>)
    requires
        from <= to <= text@.len(),
    ensures
        r@ == text@.subrange(from as int, to as int),
{
    let mut r: Vec<u8> = Vec::new();
    let mut i: usize = from;
    while i < to
        invariant
            from <= i <= to <= text@.len(),
            r@ == text@.subrange(from as int, i as int),
        decreases to - i,
    {
        r.push(text[i]);
        i = i + 1;
        assert(r@ =~= text@.subrange(from as int, i as int));
    }
    r
}

/// The position after the last `byte` in `text`, or 0 where there is none.
pub open spec fn after_last(text: Seq<u8>, byte: u8) -> int
    decreases text.len(),
{
    if text.len() == 0 {
        0
    } else if text.last() == byte {
        text.len() as int
    } else {
        after_last(text.drop_last(), byte)
    }
}

/// Nothing from `after_last` on is the byte, and what stands before it is.
pub proof fn lemma_after_last(text: Seq<u8>, byte: u8)
    ensures
        0 <= after_last(text, byte) <= text.len(),
        after_last(text, byte) > 0 ==> text[after_last(text, byte) - 1] == byte,
        forall|i: int| after_last(text, byte) <= i < text.len() ==> text[i] != byte,
    decreases text.len(),
{
    if text.len() > 0 && text.last() != byte {
        lemma_after_last(text.drop_last(), byte);
        assert forall|i: int| after_last(text, byte) <= i < text.len() implies text[i] != byte by {
            if i < text.len() - 1 {
                assert(text.drop_last()[i] == text[i]);
            }
        }
    }
}

/// Where the last piece of a path begins: after its last separator.
pub open spec fn tail_start(text: Seq<u8>) -> int {
    after_last(text, SEPARATOR)
}

/// The last piece of a path.
pub open spec fn tail(text: Seq<u8>) -> Seq<u8> {
    text.skip(tail_start(text))
}

/// What stands before the last separator of a path that has one.
pub open spec fn head(text: Seq<u8>) -> Seq<u8> {
    text.take(tail_start(text) - 1)
}

/// The components that a piece between two separators stands for: an empty piece counts
/// for nothing, and neither does a `.`, unless it leads the path.
pub open spec fn piece_steps(piece: Seq<u8>, leading: bool) -> Seq<Step> {
    if piece.len() == 0 {
        seq![]
    } else if piece == seq![DOT] {
        if leading {
            seq![Step::Current]
        } else {
            seq![]
        }
    } else if piece == seq![DOT, DOT] {
        seq![Step::Parent]
    } else {
        seq![Step::Normal(piece)]
    }
}

/// The components of a path, from the first to the last.
pub open spec fn components_of(text: Seq<u8>) -> Seq<Step>
    decreases text.len(),
{
    proof {
        lemma_after_last(text, SEPARATOR);
    }
    if text.len() == 0 {
        seq![]
    } else if tail_start(text) == 0 {
        piece_steps(text, true)
    } else if tail_start(text) == 1 {
        seq![Step::Root] + piece_steps(tail(text), false)
    } else {
        components_of(head(text)) + piece_steps(tail(text), false)
    }
}

/// The final component of a path, if it is the name of a file or a directory.
pub open spec fn file_name_of(text: Seq<u8>) -> Option<Seq<u8>> {
    let steps = components_of(text);
    if steps.len() > 0 {
        match steps.last() {
            Step::Normal(name) => Some(name),
            _ => None,
        }
    } else {
        None
    }
}

/// What stands after the last dot of a path's file name, unless that dot leads the name.
pub open spec fn extension_of(text: Seq<u8>) -> Option<Seq<u8>> {
    match file_name_of(text) {
        Some(name) => {
            let k = after_last(name, DOT);
            if k > 1 {
                Some(name.skip(k))
            } else {
                None
            }
        },
        None => None,
    }
}

/// A path without its trailing separators and the dots among them.
pub open spec fn trimmed(text: Seq<u8>) -> Seq<u8>
    decreases text.len(),
{
    proof {
        lemma_after_last(text, SEPARATOR);
    }
    if tail_start(text) == 0 || piece_steps(tail(text), false).len() > 0 {
        text
    } else if tail_start(text) == 1 {
        text.take(1)
    } else {
        trimmed(head(text))
    }
}

/// A path without its final component; nothing for the root and the empty path.
pub open spec fn parent_of(text: Seq<u8>) -> Option<Seq<u8>>
    decreases text.len(),
{
    proof {
        lemma_after_last(text, SEPARATOR);
    }
    if text.len() == 0 {
        None
    } else if tail_start(text) == 0 {
        Some(seq![])
    } else if piece_steps(tail(text), false).len() > 0 {
        if tail_start(text) == 1 {
            Some(text.take(1))
        } else {
            Some(trimmed(head(text)))
        }
    } else if tail_start(text) == 1 {
        None
    } else {
        parent_of(head(text))
    }
}

/// The path that `relative` names in the directory `base`; an absolute path stands for
/// itself.
pub open spec fn join_of(base: Seq<u8>, relative: Seq<u8>) -> Seq<u8> {
    if base.len() == 0 || (relative.len() > 0 && relative[0] == SEPARATOR) {
        relative
    } else if base.last() == SEPARATOR {
        base + relative
    } else {
        base.push(SEPARATOR) + relative
    }
}

/// Whether two paths have the same components.
pub open spec fn same_path(a: Seq<u8>, b: Seq<u8>) -> bool {
    components_of(a) == components_of(b)
}

/// A path: its bytes, and the components that they spell.
#[derive(Debug)]
pub struct TreePath {
    text: Vec<u8>,
    components: Vec<Component>,
}

impl TreePath {
    pub closed spec fn view(&self) -> Seq<u8> {
        self.text@
    }

    #[verifier::type_invariant]
    spec fn components_match(&self) -> bool {
        steps_of(self.components@) == components_of(self.text@)
    }

    /// The path with these bytes.
    pub fn new(text: Vec<u8>) -> (path: TreePath)
        ensures
            path@ == text@,
    {
        let components = parse(&text);
        TreePath { text, components }
    }

    /// The path with the bytes of a string.
    pub fn from_text(text: &str) -> (path: TreePath)
        ensures
            path@ == encode_utf8(text@),
    {
        TreePath::new(text.as_bytes_vec())
    }

    /// The bytes of this path.
    pub fn text(&self) -> (text: &Vec<u8>)
        ensures
            text@ == self@,
    {
        &self.text
    }

    /// The components of this path.
    pub fn components(&self) -> (components: &Vec<Component>)
        ensures
            steps_of(components@) == components_of(self@),
    {
        proof {
            use_type_invariant(self);
        }
        &self.components
    }

    /// Whether this is the same path as another.
    pub fn same(&self, other: &TreePath) -> (r: bool)
        ensures
            r == same_path(self@, other@),
    {
        proof {
            use_type_invariant(self);
            use_type_invariant(other);
        }
        let ghost a = components_of(self@);
        let ghost b = components_of(other@);
        let mut i: usize = self.components.len();
        if i != other.components.len() {
            assert(a.len() != b.len());
            return false;
        }
        // Paths of one tree differ at their ends, if anywhere.
        while i > 0
            invariant
                a == components_of(self@),
                b == components_of(other@),
                steps_of(self.components@) == a,
                steps_of(other.components@) == b,
                i <= a.len() == b.len(),
                forall|j: int| i <= j < a.len() ==> a[j] == b[j],
            decreases i,
        {
            if !self.components[i - 1].same(&other.components[i - 1]) {
                assert(a[i - 1] != b[i - 1]);
                return false;
            }
            i = i - 1;
        }
        assert(a =~= b);
        true
    }

    /// Whether the components of this path begin with those of another.
    pub fn starts_with(&self, base: &TreePath) -> (r: bool)
        ensures
            r == components_of(base@).is_prefix_of(components_of(self@)),
    {
        proof {
            use_type_invariant(self);
            use_type_invariant(base);
        }
        if base.components.len() > self.components.len() {
            return false;
        }
        let mut i: usize = 0;
        while i < base.components.len()
            invariant
                i <= base.components@.len() <= self.components@.len(),
                steps_of(self.components@) == components_of(self@),
                steps_of(base.components@) == components_of(base@),
                forall|j: int|
                    0 <= j < i ==> components_of(base@)[j] == #[trigger] components_of(self@)[j],
            decreases base.components@.len() - i,
        {
            if !self.components[i].same(&base.components[i]) {
                assert(components_of(base@)[i as int] != components_of(self@)[i as int]);
                return false;
            }
            i = i + 1;
        }
        assert(components_of(base@) =~= components_of(self@).take(components_of(base@).len() as int));
        true
    }

    /// The final component, if it is the name of a file or a directory.
    pub fn file_name(&self) -> (name: Option<&Vec<u8>>)
        ensures
            match name {
                Some(n) => file_name_of(self@) == Some(n@),
                None => file_name_of(self@) is None,
            },
    {
        proof {
            use_type_invariant(self);
        }
        let n = self.components.len();
        assert(components_of(self@).len() == n);
        if n == 0 {
            return None;
        }
        assert(components_of(self@).last() == self.components@[n - 1]@);
        match &self.components[n - 1] {
            Component::Normal(name) => Some(name),
            _ => None,
        }
    }

    /// What stands after the last dot of the file name, unless that dot leads the name.
    pub fn extension(&self) -> (extension: Option<Vec<u8>>)
        ensures
            match extension {
                Some(e) => extension_of(self@) == Some(e@),
                None => extension_of(self@) is None,
            },
    {
        match self.file_name() {
            Some(name) => {
                proof {
                    lemma_after_last(name@, DOT);
                    assert(name@.take(name@.len() as int) =~= name@);
                }
                let start = find_after_last(name, name.len(), DOT);
                if start > 1 {
                    let e = slice_of(name, start, name.len());
                    assert(e@ =~= name@.skip(start as int));
                    Some(e)
                } else {
                    None
                }
            },
            None => None,
        }
    }

    /// The path without its final component; nothing for the root and the empty path.
    pub fn parent(&self) -> (parent: Option<TreePath>)
        ensures
            match parent {
                Some(p) => parent_of(self@) == Some(p@),
                None => parent_of(self@) is None,
            },
    {
        let text = &self.text;
        let mut end: usize = text.len();
        assert(text@.take(end as int) =~= text@);
        while end > 0
            invariant
                end <= text@.len(),
                text@ == self@,
                parent_of(self@) == parent_of(text@.take(end as int)),
            decreases end,
        {
            let ghost whole = text@.take(end as int);
            proof {
                lemma_after_last(whole, SEPARATOR);
            }
            let start = find_after_last(text, end, SEPARATOR);
            if start == 0 {
                return Some(TreePath::new(Vec::new()));
            }
            let noise = is_noise(text, start, end);
            assert(tail(whole) =~= text@.subrange(start as int, end as int));
            if start == 1 {
                if noise {
                    return None;
                }
                let root = slice_of(text, 0, 1);
                assert(root@ =~= whole.take(1));
                return Some(TreePath::new(root));
            }
            assert(head(whole) =~= text@.take(start - 1));
            if !noise {
                let stop = trimmed_end(text, start - 1);
                let parent = slice_of(text, 0, stop);
                assert(parent@ =~= text@.take(stop as int));
                return Some(TreePath::new(parent));
            }
            end = start - 1;
        }
        None
    }

    /// The path that `relative` names in this directory; an absolute path stands for
    /// itself.
    pub fn join(&self, relative: &Vec<u8>) -> (path: TreePath)
        ensures
            path@ == join_of(self@, relative@),
    {
        let mut text: Vec<u8> = Vec::new();
        if self.text.len() > 0 && !(relative.len() > 0 && relative[0] == SEPARATOR) {
            text = slice_of(&self.text, 0, self.text.len());
            assert(text@ =~= self@);
            if text[text.len() - 1] != SEPARATOR {
                text.push(SEPARATOR);
            }
        }
        let ghost base = text@;
        let mut i: usize = 0;
        while i < relative.len()
            invariant
                i <= relative@.len(),
                text@ == base + relative@.take(i as int),
            decreases relative@.len() - i,
        {
            text.push(relative[i]);
            i = i + 1;
            assert(text@ =~= base + relative@.take(i as int));
        }
        assert(relative@.take(i as int) =~= relative@);
        assert(text@ =~= join_of(self@, relative@));
        TreePath::new(text)
    }
}

impl Clone for TreePath {
    fn clone(&self) -> (path: TreePath)
        ensures
            path@ == self@,
    {
        let text = slice_of(&self.text, 0, self.text.len());
        assert(text@ =~= self@);
        TreePath::new(text)
    }
}

/// Whether the piece from `start` to `end`, which does not lead the path, stands for no
/// component.
fn is_noise(text: &Vec<u8>, start: usize, end: usize) -> (r: bool)
    requires
        start <= end <= text@.len(),
    ensures
        r == (piece_steps(text@.subrange(start as int, end as int), false).len() == 0),
{
    let ghost piece = text@.subrange(start as int, end as int);
    if start == end {
        true
    } else if end - start == 1 && text[start] == DOT {
        assert(piece =~= seq![DOT]);
        true
    } else {
        assert(piece != seq![DOT]) by {
            if piece == seq![DOT] {
                assert(piece[0] == DOT && piece.len() == 1);
            }
        }
        false
    }
}

/// Where the trailing separators among the first `end` bytes of `text`, and the dots
/// among them, begin.
fn trimmed_end(text: &Vec<u8>, end: usize) -> (stop: usize)
    requires
        end <= text@.len(),
    ensures
        stop <= end,
        text@.take(stop as int) == trimmed(text@.take(end as int)),
{
    let mut stop: usize = end;
    loop
        invariant
            stop <= end <= text@.len(),
            trimmed(text@.take(end as int)) == trimmed(text@.take(stop as int)),
        decreases stop,
    {
        let ghost whole = text@.take(stop as int);
        proof {
            lemma_after_last(whole, SEPARATOR);
        }
        let start = find_after_last(text, stop, SEPARATOR);
        assert(tail(whole) =~= text@.subrange(start as int, stop as int));
        if start == 0 || !is_noise(text, start, stop) {
            return stop;
        }
        if start == 1 {
            assert(whole.take(1) =~= text@.take(1));
            return 1;
        }
        assert(head(whole) =~= text@.take(start - 1));
        stop = start - 1;
    }
}

/// The position after the last `byte` among the first `end` bytes of `text`.
fn find_after_last(text: &Vec<u8>, end: usize, byte: u8) -> (start: usize)
    requires
        end <= text@.len(),
    ensures
        start == after_last(text@.take(end as int), byte),
{
    let mut start: usize = end;
    while start > 0 && text[start - 1] != byte
        invariant
            start <= end <= text@.len(),
            after_last(text@.take(end as int), byte) == after_last(text@.take(start as int), byte),
        decreases start,
    {
        proof {
            assert(text@.take(start as int).drop_last() =~= text@.take(start - 1));
        }
        start = start - 1;
    }
    start
}

/// Adds the component that a piece stands for, if any.
fn push_piece(components: &mut Vec<Component>, piece: Vec<u8>, leading: bool)
    ensures
        steps_of(final(components)@) == steps_of(old(components)@) + piece_steps(piece@, leading),
{
    let ghost before = steps_of(components@);
    if piece.len() == 0 {
    } else if piece.len() == 1 && piece[0] == DOT {
        assert(piece@ =~= seq![DOT]);
        if leading {
            components.push(Component::Current);
        }
    } else if piece.len() == 2 && piece[0] == DOT && piece[1] == DOT {
        assert(piece@ =~= seq![DOT, DOT]);
        components.push(Component::Parent);
    } else {
        assert(piece@ != seq![DOT]);
        assert(piece@ != seq![DOT, DOT]);
        components.push(Component::Normal(piece));
    }
    assert(steps_of(components@) =~= before + piece_steps(piece@, leading));
}

/// Where the piece that begins at `start` ends: at the next separator, or at the end.
fn find_piece_end(text: &Vec<u8>, start: usize) -> (end: usize)
    requires
        start <= text@.len(),
        start == tail_start(text@.take(start as int)),
    ensures
        start <= end <= text@.len(),
        end < text@.len() ==> text@[end as int] == SEPARATOR,
        tail_start(text@.take(end as int)) == start,
{
    let mut end: usize = start;
    while end < text.len() && text[end] != SEPARATOR
        invariant
            start <= end <= text@.len(),
            tail_start(text@.take(end as int)) == start,
        decreases text@.len() - end,
    {
        assert(text@.take(end + 1).drop_last() =~= text@.take(end as int));
        end = end + 1;
    }
    end
}

/// The components that the bytes of a path spell.
fn parse(text: &Vec<u8>) -> (components: Vec<Component>)
    ensures
        steps_of(components@) == components_of(text@),
{
    let mut components: Vec<Component> = Vec::new();
    let mut start: usize = 0;
    assert(steps_of(components@) =~= components_of(text@.take(0)));
    loop
        invariant
            start <= text@.len(),
            start == tail_start(text@.take(start as int)),
            steps_of(components@) == components_of(text@.take(start as int)),
        decreases text@.len() - start,
    {
        let end = find_piece_end(text, start);
        let piece = slice_of(text, start, end);
        let ghost before = text@.take(start as int);
        let ghost whole = text@.take(end as int);
        push_piece(&mut components, piece, start == 0);
        proof {
            assert(piece@ =~= tail(whole));
            assert(tail(before) =~= seq![]);
            if start > 1 {
                assert(head(whole) =~= head(before));
            }
            assert(steps_of(components@) =~= components_of(whole));
        }
        if end == text.len() {
            assert(whole =~= text@);
            return components;
        }
        let ghost next = text@.take(end + 1);
        proof {
            assert(next.last() == SEPARATOR);
            assert(tail(next) =~= seq![]);
            assert(head(next) =~= whole);
        }
        if end == 0 {
            components.push(Component::Root);
        }
        assert(steps_of(components@) =~= components_of(next));
        start = end + 1;
    }
}

/// Whether a byte string can be the name of a directory entry.
pub open spec fn valid_name(name: Seq<u8>) -> bool {
    &&& name.len() > 0
    &&& !name.contains(SEPARATOR)
    &&& name != seq![DOT]
    &&& name != seq![DOT, DOT]
}

/// A relative path's components as they stand inside a longer path: without a leading
/// `.`.
pub open spec fn relative_steps(steps: Seq<Step>) -> Seq<Step> {
    if steps.len() > 0 && (steps[0] is Root || steps[0] is Current) {
        steps.drop_first()
    } else {
        steps
    }
}

/// Only the empty path has no component.
pub proof fn components_nonempty(text: Seq<u8>)
    ensures
        components_of(text).len() == 0 <==> text.len() == 0,
    decreases text.len(),
{
    lemma_after_last(text, SEPARATOR);
    if tail_start(text) > 1 {
        components_nonempty(head(text));
    }
}

/// A root and a `.` stand at the beginning of a path only, and every name in it is
/// valid.
pub proof fn components_shape(text: Seq<u8>)
    ensures
        forall|i: int|
            0 < i < components_of(text).len() ==> !(components_of(text)[i] is Root)
                && !(#[trigger] components_of(text)[i] is Current),
        forall|i: int|
            0 <= i < components_of(text).len() ==> (#[trigger] components_of(text)[i] matches Step::Normal(
                name,
            ) ==> valid_name(name)),
    decreases text.len(),
{
    lemma_after_last(text, SEPARATOR);
    if tail_start(text) > 1 {
        components_shape(head(text));
        components_nonempty(head(text));
    }
    assert(tail(text).contains(SEPARATOR) ==> false);
    assert(tail_start(text) == 0 ==> tail(text) =~= text);
}

proof fn lemma_trimmed(text: Seq<u8>)
    ensures
        components_of(trimmed(text)) == components_of(text),
    decreases text.len(),
{
    lemma_after_last(text, SEPARATOR);
    if tail_start(text) == 0 || piece_steps(tail(text), false).len() > 0 {
    } else if tail_start(text) == 1 {
        let root = text.take(1);
        assert(root.last() == SEPARATOR);
        assert(tail(root) =~= seq![]);
        assert(components_of(root) =~= seq![Step::Root]);
        assert(components_of(text) =~= seq![Step::Root]);
    } else {
        lemma_trimmed(head(text));
        assert(components_of(text) =~= components_of(head(text)));
    }
}

/// The parent of a path is what its components are without the last one, and the root
/// and the empty path are the only ones without a parent.
pub proof fn parent_drops_last(text: Seq<u8>)
    ensures
        match parent_of(text) {
            Some(parent) => components_of(text).len() > 0 && components_of(parent) == components_of(
                text,
            ).drop_last(),
            None => components_of(text).len() == 0 || components_of(text) == seq![Step::Root],
        },
    decreases text.len(),
{
    lemma_after_last(text, SEPARATOR);
    components_nonempty(text);
    if text.len() == 0 {
    } else if tail_start(text) == 0 {
        assert(components_of(text).drop_last() =~= seq![]);
    } else if piece_steps(tail(text), false).len() > 0 {
        if tail_start(text) == 1 {
            let root = text.take(1);
            assert(root.last() == SEPARATOR);
            assert(tail(root) =~= seq![]);
            assert(components_of(root) =~= seq![Step::Root]);
            assert(components_of(text).drop_last() =~= seq![Step::Root]);
        } else {
            lemma_trimmed(head(text));
            assert(components_of(text).drop_last() =~= components_of(head(text)));
        }
    } else if tail_start(text) == 1 {
        assert(components_of(text) =~= seq![Step::Root]);
    } else {
        parent_drops_last(head(text));
        assert(components_of(text) =~= components_of(head(text)));
    }
}

proof fn lemma_separated(base: Seq<u8>, relative: Seq<u8>)
    requires
        base.len() > 0,
    ensures
        components_of(base.push(SEPARATOR) + relative) == components_of(base) + relative_steps(
            components_of(relative),
        ),
    decreases relative.len(),
{
    let whole = base.push(SEPARATOR) + relative;
    let n = base.len() as int + 1;
    lemma_after_last(relative, SEPARATOR);
    lemma_after_last_append(base.push(SEPARATOR), relative, SEPARATOR);
    let start = tail_start(relative);
    if relative.len() == 0 {
        assert(whole =~= base.push(SEPARATOR));
        assert(whole.last() == SEPARATOR);
        assert(head(whole) =~= base);
        assert(tail(whole) =~= seq![]);
        assert(components_of(whole) =~= components_of(base));
    } else if start == 0 {
        assert(base.push(SEPARATOR).last() == SEPARATOR);
        assert(tail_start(whole) == n);
        assert(head(whole) =~= base);
        assert(tail(whole) =~= relative);
    } else {
        assert(tail_start(whole) == n + start);
        assert(tail(whole) =~= tail(relative));
        let shorter = head(relative);
        assert(head(whole) =~= base.push(SEPARATOR) + shorter);
        lemma_separated(base, shorter);
        components_nonempty(shorter);
        let piece = piece_steps(tail(relative), false);
        if start == 1 {
            assert(shorter =~= seq![]);
            assert(relative_steps(components_of(relative)) =~= piece);
        } else {
            assert(relative_steps(components_of(relative)) =~= relative_steps(components_of(shorter))
                + piece);
        }
        assert(components_of(whole) =~= components_of(base) + relative_steps(components_of(relative)));
    }
}

proof fn lemma_after_last_append(a: Seq<u8>, b: Seq<u8>, byte: u8)
    ensures
        after_last(a + b, byte) == if after_last(b, byte) > 0 {
            a.len() as int + after_last(b, byte)
        } else {
            after_last(a, byte)
        },
    decreases b.len(),
{
    if b.len() == 0 {
        assert(a + b =~= a);
    } else {
        assert((a + b).last() == b.last());
        assert((a + b).drop_last() =~= a + b.drop_last());
        lemma_after_last_append(a, b.drop_last(), byte);
    }
}

/// A joined path is the relative one's components after those of the base; an absolute
/// path keeps its own.
pub proof fn join_appends(base: Seq<u8>, relative: Seq<u8>)
    ensures
        components_of(join_of(base, relative)) == if base.len() == 0 || (relative.len() > 0
            && relative[0] == SEPARATOR) {
            components_of(relative)
        } else {
            components_of(base) + relative_steps(components_of(relative))
        },
{
    if base.len() == 0 || (relative.len() > 0 && relative[0] == SEPARATOR) {
    } else if base.last() == SEPARATOR {
        let shorter = base.drop_last();
        assert(base =~= shorter.push(SEPARATOR));
        if shorter.len() > 0 {
            lemma_separated(shorter, relative);
            lemma_separated(shorter, seq![]);
            assert(base + seq![] =~= base);
        } else {
            lemma_rooted(relative);
            lemma_rooted(seq![]);
            assert(base =~= seq![SEPARATOR]);
            assert(base + seq![] =~= base);
        }
    } else {
        lemma_separated(base, relative);
    }
}

proof fn lemma_rooted(relative: Seq<u8>)
    requires
        relative.len() > 0 ==> relative[0] != SEPARATOR,
    ensures
        components_of(seq![SEPARATOR] + relative) == seq![Step::Root] + relative_steps(
            components_of(relative),
        ),
    decreases relative.len(),
{
    let base = seq![SEPARATOR];
    let whole = base + relative;
    lemma_after_last(relative, SEPARATOR);
    lemma_after_last_append(base, relative, SEPARATOR);
    let start = tail_start(relative);
    if start == 0 {
        assert(base.last() == SEPARATOR);
        assert(tail_start(whole) == 1);
        assert(tail(whole) =~= relative);
        assert(components_of(whole) =~= seq![Step::Root] + relative_steps(components_of(relative)));
    } else {
        assert(start > 1);
        assert(tail(whole) =~= tail(relative));
        let shorter = head(relative);
        assert(head(whole) =~= base + shorter);
        lemma_rooted(shorter);
        components_nonempty(shorter);
        assert(relative_steps(components_of(relative)) =~= relative_steps(components_of(shorter))
            + piece_steps(tail(relative), false));
        assert(components_of(whole) =~= seq![Step::Root] + relative_steps(components_of(relative)));
    }
}

/// An entry's path is its directory's with one more component, the entry's name; its
/// file name is that name, and its parent is that directory.
pub proof fn entry_path(dir: Seq<u8>, name: Seq<u8>)
    requires
        valid_name(name),
    ensures
        components_of(join_of(dir, name)) == components_of(dir).push(Step::Normal(name)),
        file_name_of(join_of(dir, name)) == Some(name),
        parent_of(join_of(dir, name)) is Some,
        same_path(parent_of(join_of(dir, name)).unwrap(), dir),
{
    let path = join_of(dir, name);
    lemma_after_last(name, SEPARATOR);
    assert(tail_start(name) == 0) by {
        if tail_start(name) > 0 {
            assert(name[tail_start(name) - 1] == SEPARATOR);
        }
    }
    assert(name[0] != SEPARATOR) by {
        if name[0] == SEPARATOR {
            assert(name.contains(SEPARATOR));
        }
    }
    join_appends(dir, name);
    components_nonempty(dir);
    assert(components_of(name) == seq![Step::Normal(name)]);
    assert(components_of(path) =~= components_of(dir).push(Step::Normal(name)));
    parent_drops_last(path);
    assert(components_of(path).drop_last() =~= components_of(dir));
    assert(components_of(path) != seq![Step::Root]) by {
        assert(components_of(path).last() == Step::Normal(name));
    }
}

}
