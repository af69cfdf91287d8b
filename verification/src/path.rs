//! Virtual paths: the names under which the files of a font are kept.
//!
//! A virtual path is written with `/` between its components and is never
//! resolved against a working directory or a file system. Its names are made of
//! any bytes, as on Unix; a text names the path of its UTF-8 bytes. A path keeps
//! the way in which it is spelled, but two spellings name the same path when they
//! have the same components, so `a//b/` is `a/b`.

use crate::ordered_map::Key;
use crate::text::{
    bytes_before, is_bytes_before, lemma_bytes_before_total, lemma_bytes_before_transitive,
};
use vstd::prelude::*;
use vstd::utf8::encode_utf8;

verus! {

broadcast use vstd::seq::group_seq_axioms;

/// What stands between the components of a path.
pub const SLASH: u8 = 0x2f;

/// What names a directory itself and, twice, its parent.
pub const DOT: u8 = 0x2e;

/// One component of a path.
#[derive(Debug)]
pub enum Component {
    /// The slash that an absolute path begins with.
    RootDir,
    /// A dot at the beginning of a path.
    CurDir,
    /// Two dots.
    ParentDir,
    /// A name.
    Normal(Vec<u8>),
}

/// What a [`Component`] stands for.
pub enum ComponentView {
    RootDir,
    CurDir,
    ParentDir,
    Normal(Seq<u8>),
}

/// What a [`VirtualPath`] stands for: its components in order.
pub type PathView = Seq<ComponentView>;

impl View for Component {
    type V = ComponentView;

    open spec fn view(&self) -> ComponentView {
        match self {
            Component::RootDir => ComponentView::RootDir,
            Component::CurDir => ComponentView::CurDir,
            Component::ParentDir => ComponentView::ParentDir,
            Component::Normal(name) => ComponentView::Normal(name@),
        }
    }
}

/// A copy of `bytes`.
fn copied(bytes: &Vec<u8>) -> (res: Vec<u8>)
    ensures
        res@ == bytes@,
{
    vstd::slice::slice_to_vec(bytes.as_slice())
}

/// Whether two names are the same.
fn same_bytes(a: &Vec<u8>, b: &Vec<u8>) -> (res: bool)
    ensures
        res == (a@ == b@),
{
    if a.len() != b.len() {
        return false;
    }
    let mut i: usize = 0;
    while i < a.len()
        invariant
            i <= a@.len() == b@.len(),
            a@.take(i as int) == b@.take(i as int),
        decreases a@.len() - i,
    {
        if a[i] != b[i] {
            return false;
        }
        assert(a@.take(i + 1) == a@.take(i as int).push(a@[i as int]));
        assert(b@.take(i + 1) == b@.take(i as int).push(b@[i as int]));
        i += 1;
    }
    assert(a@.take(a@.len() as int) == a@);
    assert(b@.take(b@.len() as int) == b@);
    true
}

impl Clone for Component {
    fn clone(&self) -> (res: Component)
        ensures
            res@ == self@,
    {
        match self {
            Component::RootDir => Component::RootDir,
            Component::CurDir => Component::CurDir,
            Component::ParentDir => Component::ParentDir,
            Component::Normal(name) => Component::Normal(copied(name)),
        }
    }
}

impl Component {
    /// Whether two components are the same.
    fn same(&self, other: &Component) -> (res: bool)
        ensures
            res == (self@ == other@),
    {
        match (self, other) {
            (Component::RootDir, Component::RootDir) => true,
            (Component::CurDir, Component::CurDir) => true,
            (Component::ParentDir, Component::ParentDir) => true,
            (Component::Normal(a), Component::Normal(b)) => same_bytes(a, b),
            _ => false,
        }
    }
}

/// The components that a sequence of [`Component`]s stands for.
pub open spec fn views(components: Seq<Component>) -> PathView {
    components.map_values(|c: Component| c@)
}

// ---------------------------------------------------------------------------
// From text to components
// ---------------------------------------------------------------------------

/// The pieces of `text` between its slashes: one more than it has slashes.
pub open spec fn segments(text: Seq<u8>) -> Seq<Seq<u8>>
    decreases text.len(),
{
    if text.len() == 0 {
        seq![Seq::empty()]
    } else {
        let head = segments(text.drop_last());
        if text.last() == SLASH {
            head.push(Seq::empty())
        } else {
            head.drop_last().push(head.last().push(text.last()))
        }
    }
}

/// The component that a segment is, if it is one. A dot counts only where it
/// is the first segment of the path.
pub open spec fn segment_component(segment: Seq<u8>, first: bool) -> Option<ComponentView> {
    if segment.len() == 0 {
        None
    } else if segment == seq![DOT] {
        if first {
            Some(ComponentView::CurDir)
        } else {
            None
        }
    } else if segment == seq![DOT, DOT] {
        Some(ComponentView::ParentDir)
    } else {
        Some(ComponentView::Normal(segment))
    }
}

/// The components of a path with the given segments.
pub open spec fn segment_components(segments: Seq<Seq<u8>>) -> PathView
    decreases segments.len(),
{
    if segments.len() == 0 {
        Seq::empty()
    } else {
        let head = segment_components(segments.drop_last());
        match segment_component(segments.last(), segments.len() == 1) {
            Some(component) => head.push(component),
            None => head,
        }
    }
}

/// The root component of a path that begins with a slash.
pub open spec fn root_of(text: Seq<u8>) -> PathView {
    if text.len() > 0 && text[0] == SLASH {
        seq![ComponentView::RootDir]
    } else {
        Seq::empty()
    }
}

/// The path that is spelled as `text`.
pub open spec fn parse_path(text: Seq<u8>) -> PathView {
    root_of(text) + segment_components(segments(text))
}

/// The path that `text` names.
pub open spec fn text_path(text: Seq<char>) -> PathView {
    parse_path(encode_utf8(text))
}

/// Whether `name` can be the name of a file or a directory.
pub open spec fn is_name(name: Seq<u8>) -> bool {
    &&& name.len() > 0
    &&& !name.contains(SLASH)
    &&& name != seq![DOT]
    &&& name != seq![DOT, DOT]
}

/// Whether `component` can stand at position `i` of a path.
pub open spec fn fits(component: ComponentView, i: int) -> bool {
    match component {
        ComponentView::RootDir => i == 0,
        ComponentView::CurDir => i == 0,
        ComponentView::ParentDir => true,
        ComponentView::Normal(name) => is_name(name),
    }
}

/// Whether `path` is the path of some text.
pub open spec fn is_path(path: PathView) -> bool {
    forall|i: int| 0 <= i < path.len() ==> fits(#[trigger] path[i], i)
}

/// The segments of a text hold no slash.
pub proof fn lemma_segments_free_of_slash(text: Seq<u8>)
    ensures
        segments(text).len() > 0,
        forall|i: int| 0 <= i < segments(text).len() ==> !(#[trigger] segments(text)[i]).contains(SLASH),
        text.len() > 0 && text[0] == SLASH ==> segments(text).len() > 1 && segments(text)[0].len() == 0,
    decreases text.len(),
{
    if text.len() > 0 {
        lemma_segments_free_of_slash(text.drop_last());
        if text.last() == SLASH {
            assert(segments(text.drop_last()).drop_last() == segments(text).drop_last().drop_last());
            if text.len() == 1 {
                assert(text.drop_last() == Seq::<u8>::empty());
            }
        } else {
            let last = segments(text.drop_last()).last();
            assert forall|i: int| 0 <= i < last.push(text.last()).len() implies last.push(
                text.last(),
            )[i] != SLASH by {
                if i < last.len() {
                    assert(last.contains(last[i]));
                }
            }
        }
    }
}

proof fn lemma_segment_components_fit(segments: Seq<Seq<u8>>)
    requires
        forall|i: int| 0 <= i < segments.len() ==> !(#[trigger] segments[i]).contains(SLASH),
    ensures
        is_path(segment_components(segments)),
        forall|i: int|
            0 <= i < segment_components(segments).len() ==> (#[trigger] segment_components(
                segments,
            )[i]) !is RootDir,
        segments.len() > 0 && segments[0].len() == 0 ==> forall|i: int|
            0 <= i < segment_components(segments).len() ==> (#[trigger] segment_components(
                segments,
            )[i]) !is CurDir,
    decreases segments.len(),
{
    if segments.len() > 0 {
        lemma_segment_components_fit(segments.drop_last());
        if segments.len() == 1 {
            assert(segment_components(segments.drop_last()) == Seq::<ComponentView>::empty());
        }
    }
}

/// The components of a text always form a path.
pub proof fn lemma_parse_path_is_path(text: Seq<u8>)
    ensures
        is_path(parse_path(text)),
{
    lemma_segments_free_of_slash(text);
    lemma_segment_components_fit(segments(text));
    let rest = segment_components(segments(text));
    assert forall|i: int| 0 <= i < parse_path(text).len() implies fits(
        #[trigger] parse_path(text)[i],
        i,
    ) by {
        if root_of(text).len() == 0 {
            assert(parse_path(text)[i] == rest[i]);
        } else if i > 0 {
            assert(parse_path(text)[i] == rest[i - 1]);
            assert(rest[i - 1] !is RootDir && rest[i - 1] !is CurDir);
        }
    }
}

/// The component that `segment` is, if it is one.
fn component_of(segment: &Vec<u8>, first: bool) -> (res: Option<Component>)
    ensures
        match res {
            Some(component) => segment_component(segment@, first) == Some(component@),
            None => segment_component(segment@, first) is None,
        },
{
    if segment.len() == 0 {
        None
    } else if segment.len() == 1 && segment[0] == DOT {
        assert(segment@ == seq![DOT]);
        if first {
            Some(Component::CurDir)
        } else {
            None
        }
    } else if segment.len() == 2 && segment[0] == DOT && segment[1] == DOT {
        assert(segment@ == seq![DOT, DOT]);
        Some(Component::ParentDir)
    } else {
        assert(segment@ != seq![DOT] && segment@ != seq![DOT, DOT]);
        Some(Component::Normal(copied(segment)))
    }
}

/// Appends the component that `segment` is, if it is one.
fn push_segment(
    components: &mut Vec<Component>,
    segment: &Vec<u8>,
    first: bool,
    Ghost(done): Ghost<Seq<Seq<u8>>>,
    Ghost(root): Ghost<PathView>,
)
    requires
        views(old(components)@) == root + segment_components(done),
        first == (done.len() == 0),
    ensures
        views(final(components)@) == root + segment_components(done.push(segment@)),
{
    let ghost before = components@;
    assert(done.push(segment@).drop_last() == done);
    if let Some(component) = component_of(segment, first) {
        let ghost view = component@;
        components.push(component);
        assert(views(components@) == views(before).push(view));
        assert(root + segment_components(done).push(view) == (root + segment_components(done)).push(
            view,
        ));
    }
}

/// A path of a font's file.
#[derive(Debug)]
pub struct VirtualPath {
    bytes: Vec<u8>,
    components: Vec<Component>,
}

impl View for VirtualPath {
    type V = PathView;

    open spec fn view(&self) -> PathView {
        parse_path(self.spelling())
    }
}

impl VirtualPath {
    /// How the path is spelled.
    pub closed spec fn spelling(self) -> Seq<u8> {
        self.bytes@
    }

    /// Whether the path is spelled in the shortest way.
    pub open spec fn is_short(self) -> bool {
        self.spelling() == path_text(self@)
    }

    #[verifier::type_invariant]
    spec fn well_formed(self) -> bool {
        views(self.components@) == parse_path(self.bytes@)
    }

    /// The path that `text` names.
    pub fn new(text: &str) -> (res: VirtualPath)
        ensures
            res@ == text_path(text@),
            res.spelling() == encode_utf8(text@),
            is_path(res@),
    {
        VirtualPath::from_bytes(text.as_bytes())
    }

    /// The path that is spelled as `bytes`.
    pub fn from_bytes(bytes: &[u8]) -> (res: VirtualPath)
        ensures
            res@ == parse_path(bytes@),
            res.spelling() == bytes@,
            is_path(res@),
    {
        let components = components_of(bytes);
        proof {
            lemma_parse_path_is_path(bytes@);
        }
        VirtualPath { bytes: vstd::slice::slice_to_vec(bytes), components }
    }

    /// The path with the given components in its shortest spelling.
    fn short(components: Vec<Component>) -> (res: VirtualPath)
        requires
            is_path(views(components@)),
        ensures
            res@ == views(components@),
            res.is_short(),
    {
        let bytes = shortest(&components);
        proof {
            text_names_path(views(components@));
        }
        VirtualPath { bytes, components }
    }

    /// How the path is spelled.
    pub fn to_bytes(&self) -> (res: Vec<u8>)
        ensures
            res@ == self.spelling(),
            parse_path(res@) == self@,
            is_path(self@),
    {
        proof {
            lemma_parse_path_is_path(self.bytes@);
        }
        copied(&self.bytes)
    }

    /// Whether the path begins at the root.
    pub fn is_absolute(&self) -> (res: bool)
        ensures
            res == is_absolute(self@),
    {
        proof {
            use_type_invariant(self);
        }
        if self.components.len() == 0 {
            return false;
        }
        match self.components[0] {
            Component::RootDir => true,
            _ => false,
        }
    }

    /// The path without its last component in its shortest spelling, unless the
    /// path is empty or ends in the root.
    pub fn parent(&self) -> (res: Option<VirtualPath>)
        ensures
            match res {
                Some(path) => parent(self@) == Some(path@) && path.is_short() && is_path(path@),
                None => parent(self@) is None,
            },
    {
        proof {
            use_type_invariant(self);
            lemma_parse_path_is_path(self.bytes@);
        }
        let len = self.components.len();
        if len == 0 {
            return None;
        }
        match self.components[len - 1] {
            Component::RootDir => None,
            _ => {
                let components = clone_components(&self.components, len - 1);
                assert(views(components@) == self@.drop_last());
                Some(VirtualPath::short(components))
            },
        }
    }

    /// `other` seen from this path: `other` itself where it is absolute, and
    /// otherwise this path, a slash unless one ends it, and `other`.
    pub fn join(&self, other: &VirtualPath) -> (res: VirtualPath)
        ensures
            res@ == join(self@, other@),
            res.spelling() == join_spelling(self.spelling(), other.spelling()),
            is_path(res@),
    {
        proof {
            use_type_invariant(self);
            use_type_invariant(other);
            lemma_join_spelling(self.bytes@, other.bytes@);
            lemma_root(other.bytes@);
        }
        if other.is_absolute() {
            return VirtualPath::from_bytes(other.bytes.as_slice());
        }
        let mut bytes = copied(&self.bytes);
        let len = bytes.len();
        if len > 0 && bytes[len - 1] != SLASH {
            bytes.push(SLASH);
        }
        let mut more = copied(&other.bytes);
        bytes.append(&mut more);
        assert(bytes@ == join_spelling(self.bytes@, other.bytes@));
        VirtualPath::from_bytes(bytes.as_slice())
    }
}

impl Clone for VirtualPath {
    fn clone(&self) -> (res: VirtualPath)
        ensures
            res@ == self@,
            res.spelling() == self.spelling(),
            is_path(res@),
    {
        VirtualPath::from_bytes(self.bytes.as_slice())
    }
}

/// The components of the path that is spelled as `bytes`.
fn components_of(bytes: &[u8]) -> (components: Vec<Component>)
    ensures
        views(components@) == parse_path(bytes@),
{
    let ghost root = root_of(bytes@);
    let mut components: Vec<Component> = Vec::new();
    if bytes.len() > 0 && bytes[0] == SLASH {
        components.push(Component::RootDir);
    }
    assert(views(components@) == root);
    let mut segment: Vec<u8> = Vec::new();
    let mut first = true;
    let ghost mut done: Seq<Seq<u8>> = Seq::empty();
    let mut i: usize = 0;
    assert(root + segment_components(done) == root);
    assert(bytes@.take(0) == Seq::<u8>::empty());
    assert(done.push(segment@) == segments(bytes@.take(0)));
    while i < bytes.len()
        invariant
            i <= bytes@.len(),
            views(components@) == root + segment_components(done),
            first == (done.len() == 0),
            segments(bytes@.take(i as int)) == done.push(segment@),
        decreases bytes@.len() - i,
    {
        let byte = bytes[i];
        assert(bytes@.take(i + 1).drop_last() == bytes@.take(i as int));
        assert(bytes@.take(i + 1).last() == byte);
        assert(done.push(segment@).drop_last() == done);
        if byte == SLASH {
            push_segment(&mut components, &segment, first, Ghost(done), Ghost(root));
            proof {
                done = done.push(segment@);
            }
            first = false;
            segment = Vec::new();
        } else {
            segment.push(byte);
        }
        i += 1;
    }
    assert(bytes@.take(bytes@.len() as int) == bytes@);
    push_segment(&mut components, &segment, first, Ghost(done), Ghost(root));
    components
}

/// A copy of the first `len` components.
fn clone_components(components: &Vec<Component>, len: usize) -> (res: Vec<Component>)
    requires
        len <= components@.len(),
    ensures
        views(res@) == views(components@).take(len as int),
{
    let mut res: Vec<Component> = Vec::new();
    let mut i: usize = 0;
    while i < len
        invariant
            i <= len <= components@.len(),
            views(res@) == views(components@).take(i as int),
        decreases len - i,
    {
        let ghost before = res@;
        res.push(components[i].clone());
        assert(views(res@) == views(before).push(components@[i as int]@));
        i += 1;
    }
    res
}

/// Whether `path` begins at the root.
pub open spec fn is_absolute(path: PathView) -> bool {
    path.len() > 0 && path[0] is RootDir
}

/// `path` without its last component, unless it is empty or ends in the root.
pub open spec fn parent(path: PathView) -> Option<PathView> {
    if path.len() == 0 || path.last() is RootDir {
        None
    } else {
        Some(path.drop_last())
    }
}

/// `other` seen from `base`: `other` itself where it is absolute. A dot that
/// `other` begins with adds nothing behind other components.
pub open spec fn join(base: PathView, other: PathView) -> PathView {
    if is_absolute(other) || base.len() == 0 {
        other
    } else if other.len() > 0 && other[0] is CurDir {
        base + other.drop_first()
    } else {
        base + other
    }
}

/// How `other` seen from `base` is spelled.
pub open spec fn join_spelling(base: Seq<u8>, other: Seq<u8>) -> Seq<u8> {
    if root_of(other).len() > 0 || base.len() == 0 {
        other
    } else if base.last() == SLASH {
        base + other
    } else {
        base.push(SLASH) + other
    }
}

/// A path is absolute exactly where its spelling begins with a slash.
proof fn lemma_root(text: Seq<u8>)
    ensures
        is_absolute(parse_path(text)) == (root_of(text).len() > 0),
{
    lemma_segments_free_of_slash(text);
    lemma_segment_components_fit(segments(text));
    let rest = segment_components(segments(text));
    if root_of(text).len() == 0 && rest.len() > 0 {
        assert(parse_path(text)[0] == rest[0]);
    }
}

/// The segments of a text go on behind a slash.
pub proof fn lemma_segments_behind(text: Seq<u8>, more: Seq<u8>)
    ensures
        segments(text.push(SLASH) + more) == segments(text) + segments(more),
    decreases more.len(),
{
    let whole = text.push(SLASH) + more;
    lemma_segments_free_of_slash(more);
    if more.len() == 0 {
        assert(whole == text.push(SLASH));
        assert(whole.drop_last() == text);
        assert(segments(text).push(Seq::empty()) == segments(text) + seq![Seq::<u8>::empty()]);
    } else {
        let head = more.drop_last();
        lemma_segments_free_of_slash(head);
        lemma_segments_behind(text, head);
        assert(whole.drop_last() == text.push(SLASH) + head);
        assert(whole.last() == more.last());
        let before = segments(text) + segments(head);
        assert(before.drop_last() == segments(text) + segments(head).drop_last());
        assert(before.last() == segments(head).last());
        if more.last() == SLASH {
            assert(before.push(Seq::empty()) == segments(text) + segments(head).push(Seq::empty()));
        } else {
            let last = segments(head).last().push(more.last());
            assert(before.drop_last().push(last) == segments(text) + segments(head).drop_last().push(
                last,
            ));
        }
    }
}

/// The components of more segments go on behind those of `front`, but for a dot
/// that comes first.
proof fn lemma_components_behind(front: Seq<Seq<u8>>, more: Seq<Seq<u8>>)
    requires
        front.len() > 0,
    ensures
        ({
            let rest = segment_components(more);
            segment_components(front + more) == segment_components(front) + if rest.len() > 0
                && rest[0] is CurDir {
                rest.drop_first()
            } else {
                rest
            }
        }),
    decreases more.len(),
{
    let whole = front + more;
    let base = segment_components(front);
    if more.len() == 0 {
        assert(whole == front);
        assert(base + Seq::<ComponentView>::empty() == base);
    } else {
        let head = more.drop_last();
        lemma_components_behind(front, head);
        assert(whole.drop_last() == front + head);
        assert(whole.last() == more.last());
        let rest = segment_components(head);
        if more.len() == 1 {
            assert(head == Seq::<Seq<u8>>::empty());
            assert(rest == Seq::<ComponentView>::empty());
            assert(base + rest == base);
        }
        if let Some(component) = segment_component(more.last(), more.len() == 1) {
            assert(rest.push(component)[0] == if rest.len() > 0 { rest[0] } else { component });
            if rest.len() > 0 && rest[0] is CurDir {
                assert(rest.push(component).drop_first() == rest.drop_first().push(component));
                assert((base + rest.drop_first()).push(component) == base
                    + rest.drop_first().push(component));
            } else if component is CurDir && rest.len() == 0 {
                assert(rest.push(component).drop_first() == Seq::<ComponentView>::empty());
            } else {
                assert((base + rest).push(component) == base + rest.push(component));
            }
        }
    }
}

/// The joined spelling names the joined path.
proof fn lemma_join_spelling(base: Seq<u8>, other: Seq<u8>)
    ensures
        parse_path(join_spelling(base, other)) == join(parse_path(base), parse_path(other)),
{
    lemma_root(base);
    lemma_root(other);
    lemma_segments_free_of_slash(base);
    lemma_segments_free_of_slash(other);
    let joined = join_spelling(base, other);
    let path = parse_path(base);
    if base.len() == 0 {
        let none: Seq<u8> = Seq::empty();
        assert(base == none);
        assert(path_text(Seq::<ComponentView>::empty()) == none);
        text_names_path(Seq::empty());
        assert(path == Seq::<ComponentView>::empty());
    } else if root_of(other).len() == 0 {
        let front = if base.last() == SLASH { base.drop_last() } else { base };
        assert(joined == front.push(SLASH) + other) by {
            if base.last() == SLASH {
                assert(front.push(SLASH) == base);
            }
        }
        assert(joined[0] == base[0]);
        assert(root_of(joined) == root_of(base));
        lemma_segments_free_of_slash(front);
        lemma_segments_behind(front, other);
        lemma_components_behind(segments(front), segments(other));
        let rest = segment_components(segments(other));
        assert(parse_path(other) == rest);
        assert(segment_components(segments(base)) == segment_components(segments(front))) by {
            if base.last() == SLASH {
                assert(segments(base) == segments(front).push(Seq::empty()));
                assert(segments(base).drop_last() == segments(front));
            }
        }
        assert(path.len() > 0) by {
            lemma_some_component(base);
        }
        let tail = if rest.len() > 0 && rest[0] is CurDir { rest.drop_first() } else { rest };
        assert(parse_path(joined) == root_of(base) + (segment_components(segments(front)) + tail));
        assert(parse_path(joined) == path + tail);
    }
}

/// Only the empty text names the empty path.
proof fn lemma_some_component(text: Seq<u8>)
    requires
        text.len() > 0,
    ensures
        parse_path(text).len() > 0,
{
    if root_of(text).len() == 0 {
        lemma_first_segment(text);
    }
}

/// A text that does not begin with a slash has a first component.
proof fn lemma_first_segment(text: Seq<u8>)
    requires
        text.len() > 0,
        text[0] != SLASH,
    ensures
        segments(text).len() > 0,
        segments(text)[0].len() > 0,
        segment_components(segments(text)).len() > 0,
    decreases text.len(),
{
    let head = text.drop_last();
    lemma_segments_free_of_slash(text);
    if head.len() == 0 {
        assert(head == Seq::<u8>::empty());
        assert(segments(head) == seq![Seq::<u8>::empty()]);
        assert(segments(text) == seq![seq![text.last()]]);
    } else {
        assert(head[0] == text[0]);
        lemma_first_segment(head);
    }
    lemma_first_component(segments(text));
}

/// A first segment that is not empty is a component.
proof fn lemma_first_component(segments: Seq<Seq<u8>>)
    requires
        segments.len() > 0,
        segments[0].len() > 0,
    ensures
        segment_components(segments).len() > 0,
    decreases segments.len(),
{
    if segments.len() > 1 {
        assert(segments.drop_last()[0] == segments[0]);
        lemma_first_component(segments.drop_last());
    }
}

proof fn lemma_join_is_path(base: PathView, other: PathView)
    requires
        is_path(base),
        is_path(other),
    ensures
        is_path(join(base, other)),
{
    let joined = join(base, other);
    assert forall|i: int| 0 <= i < joined.len() implies fits(#[trigger] joined[i], i) by {
        if is_absolute(other) || base.len() == 0 {
        } else if i < base.len() {
            assert(joined[i] == base[i]);
        } else if other.len() > 0 && other[0] is CurDir {
            assert(joined[i] == other[i - base.len() + 1]);
        } else {
            assert(joined[i] == other[i - base.len()]);
        }
    }
}

// ---------------------------------------------------------------------------
// Normal form
// ---------------------------------------------------------------------------

/// `path` after the component `next`: a dot stays, two dots lead to the
/// parent where there is one, the root starts anew, and a name leads on.
pub open spec fn step(path: PathView, next: ComponentView) -> PathView {
    match next {
        ComponentView::RootDir => seq![ComponentView::RootDir],
        ComponentView::CurDir => path,
        ComponentView::ParentDir => match parent(path) {
            Some(up) => up,
            None => path,
        },
        ComponentView::Normal(_) => path.push(next),
    }
}

/// The path that following `path` from nowhere leads to.
pub open spec fn normalize(path: PathView) -> PathView
    decreases path.len(),
{
    if path.len() == 0 {
        Seq::empty()
    } else {
        step(normalize(path.drop_last()), path.last())
    }
}

/// Whether `path` holds only names behind an optional root.
pub open spec fn is_normal(path: PathView) -> bool {
    forall|i: int|
        0 <= i < path.len() ==> ((#[trigger] path[i]) is Normal || (i == 0 && path[i] is RootDir))
}

/// A normalized path holds only names behind an optional root.
pub proof fn normalized_is_normal(path: PathView)
    ensures
        is_normal(normalize(path)),
    decreases path.len(),
{
    if path.len() > 0 {
        normalized_is_normal(path.drop_last());
    }
}

/// A path of names alone is its own normal form.
pub proof fn normal_is_kept(path: PathView)
    requires
        is_normal(path),
    ensures
        normalize(path) == path,
    decreases path.len(),
{
    if path.len() > 0 {
        let head = path.drop_last();
        assert(forall|i: int| 0 <= i < head.len() ==> head[i] == path[i]);
        normal_is_kept(head);
        assert(head.push(path.last()) == path);
        if path.last() is RootDir {
            assert(path == seq![ComponentView::RootDir]);
        }
    }
}

/// Normalizing twice is normalizing once.
pub proof fn normalize_is_idempotent(path: PathView)
    ensures
        normalize(normalize(path)) == normalize(path),
{
    normalized_is_normal(path);
    normal_is_kept(normalize(path));
}

/// A normalized path begins at the root exactly where the path does.
pub proof fn normalize_keeps_root(path: PathView)
    requires
        is_path(path),
    ensures
        is_absolute(normalize(path)) == is_absolute(path),
    decreases path.len(),
{
    if path.len() > 0 {
        let head = path.drop_last();
        assert forall|i: int| 0 <= i < head.len() implies fits(#[trigger] head[i], i) by {
            assert(head[i] == path[i]);
        }
        normalize_keeps_root(head);
        normalized_is_normal(head);
        assert(fits(path[path.len() - 1], path.len() - 1));
        if head.len() > 0 {
            assert(head[0] == path[0]);
        }
    }
}

proof fn lemma_normalize_is_path(path: PathView)
    requires
        is_path(path),
    ensures
        is_path(normalize(path)),
    decreases path.len(),
{
    if path.len() > 0 {
        let head = path.drop_last();
        assert forall|i: int| 0 <= i < head.len() implies fits(#[trigger] head[i], i) by {
            assert(head[i] == path[i]);
        }
        lemma_normalize_is_path(head);
        assert(fits(path[path.len() - 1], path.len() - 1));
    }
}

/// Lexically normalizes a virtual path without consulting a working directory
/// or a file system.
pub fn normalize_virtual_path(path: &VirtualPath) -> (res: VirtualPath)
    ensures
        res@ == normalize(path@),
        res.is_short(),
        is_path(res@),
{
    proof {
        use_type_invariant(path);
        lemma_parse_path_is_path(path.bytes@);
        lemma_normalize_is_path(path@);
    }
    let mut normalized: Vec<Component> = Vec::new();
    let mut i: usize = 0;
    assert(path@.take(0) == Seq::<ComponentView>::empty());
    while i < path.components.len()
        invariant
            i <= path.components@.len(),
            views(path.components@) == path@,
            views(normalized@) == normalize(path@.take(i as int)),
        decreases path.components@.len() - i,
    {
        let ghost before = normalized@;
        assert(path@.take(i + 1).drop_last() == path@.take(i as int));
        assert(path@.take(i + 1).last() == path@[i as int]);
        match &path.components[i] {
            Component::CurDir => {},
            Component::ParentDir => {
                pop_component(&mut normalized);
            },
            Component::Normal(name) => {
                normalized.push(Component::Normal(copied(name)));
                assert(views(normalized@) == views(before).push(path@[i as int]));
            },
            Component::RootDir => {
                normalized.clear();
                normalized.push(Component::RootDir);
                assert(views(normalized@) == seq![ComponentView::RootDir]);
            },
        }
        i += 1;
    }
    assert(path@.take(path@.len() as int) == path@);
    VirtualPath::short(normalized)
}

/// Removes the last component, unless it is the root.
fn pop_component(components: &mut Vec<Component>)
    ensures
        views(final(components)@) == step(views(old(components)@), ComponentView::ParentDir),
{
    let ghost before = components@;
    let len = components.len();
    if len > 0 {
        match components[len - 1] {
            Component::RootDir => {},
            _ => {
                components.pop();
                assert(views(components@) == views(before).drop_last());
            },
        }
    }
}

/// The normal form of `relative` as seen from `base`.
pub open spec fn join_normal(base: PathView, relative: PathView) -> PathView {
    if is_absolute(relative) {
        normalize(relative)
    } else {
        normalize(join(base, relative))
    }
}

/// The normal form of `relative` as seen from `base`.
pub fn join_virtual_path(base: &VirtualPath, relative: &VirtualPath) -> (res: VirtualPath)
    ensures
        res@ == join_normal(base@, relative@),
        res.is_short(),
        is_path(res@),
{
    if relative.is_absolute() {
        return normalize_virtual_path(relative);
    }
    normalize_virtual_path(&base.join(relative))
}

/// What joining gives is in normal form, and begins at the root exactly where
/// one of the two paths does.
pub proof fn joined_is_normal(base: PathView, relative: PathView)
    requires
        is_path(base),
        is_path(relative),
    ensures
        is_normal(join_normal(base, relative)),
        is_absolute(join_normal(base, relative)) == (is_absolute(base) || is_absolute(relative)),
{
    let joined = join(base, relative);
    normalized_is_normal(relative);
    normalized_is_normal(joined);
    lemma_join_is_path(base, relative);
    normalize_keeps_root(relative);
    normalize_keeps_root(joined);
    if base.len() > 0 && !is_absolute(relative) {
        assert(joined[0] == base[0]);
    }
}

// ---------------------------------------------------------------------------
// From components to text
// ---------------------------------------------------------------------------

/// How a component is written.
pub open spec fn component_text(component: ComponentView) -> Seq<u8> {
    match component {
        ComponentView::RootDir => seq![SLASH],
        ComponentView::CurDir => seq![DOT],
        ComponentView::ParentDir => seq![DOT, DOT],
        ComponentView::Normal(name) => name,
    }
}

/// What stands between the components of `path` and a further one: a slash,
/// unless there is nothing yet or the root has already brought it.
pub open spec fn separator(path: PathView) -> Seq<u8> {
    if path.len() == 0 || path.last() is RootDir {
        Seq::empty()
    } else {
        seq![SLASH]
    }
}

/// The shortest spelling of `path`.
pub open spec fn path_text(path: PathView) -> Seq<u8>
    decreases path.len(),
{
    if path.len() == 0 {
        Seq::empty()
    } else {
        path_text(path.drop_last()) + separator(path.drop_last()) + component_text(path.last())
    }
}

proof fn lemma_segments_append(text: Seq<u8>, name: Seq<u8>)
    requires
        !name.contains(SLASH),
    ensures
        segments(text).len() > 0,
        segments(text + name) == segments(text).drop_last().push(segments(text).last() + name),
    decreases name.len(),
{
    lemma_segments_free_of_slash(text);
    if name.len() == 0 {
        assert(text + name == text);
        assert(segments(text).last() + name == segments(text).last());
        assert(segments(text).drop_last().push(segments(text).last()) == segments(text));
    } else {
        let head = name.drop_last();
        assert(name.contains(name.last()));
        assert forall|i: int| 0 <= i < head.len() implies head[i] != SLASH by {
            assert(head[i] == name[i]);
            assert(name.contains(name[i]));
        }
        lemma_segments_append(text, head);
        assert((text + name).drop_last() == text + head);
        assert((text + name).last() == name.last());
        let s = segments(text).drop_last().push(segments(text).last() + head);
        assert(s.drop_last() == segments(text).drop_last());
        assert((segments(text).last() + head).push(name.last()) == segments(text).last() + name);
    }
}

proof fn lemma_segments_of_name(text: Seq<u8>, name: Seq<u8>)
    requires
        !name.contains(SLASH),
    ensures
        segments(text.push(SLASH) + name) == segments(text).push(name),
{
    assert(text.push(SLASH).drop_last() == text);
    lemma_segments_append(text.push(SLASH), name);
    assert(segments(text.push(SLASH)) == segments(text).push(Seq::empty()));
    assert(segments(text).push(Seq::<u8>::empty()).drop_last() == segments(text));
    assert(Seq::<u8>::empty() + name == name);
}

proof fn lemma_component_text(component: ComponentView)
    requires
        fits(component, 1),
    ensures
        !component_text(component).contains(SLASH),
        component_text(component).len() > 0,
        segment_component(component_text(component), false) == Some(component),
        segment_component(component_text(component), true) == Some(component),
{
    let text = component_text(component);
    if component is ParentDir {
        assert(text[0] == DOT && text[1] == DOT);
        assert(text != seq![DOT]);
        assert forall|i: int| 0 <= i < text.len() implies text[i] != SLASH by {}
    }
}

/// The text of a path names that path.
pub proof fn text_names_path(path: PathView)
    requires
        is_path(path),
    ensures
        parse_path(path_text(path)) == path,
        path_text(path).len() == 0 <==> path.len() == 0,
    decreases path.len(),
{
    if path.len() == 0 {
        let none: Seq<u8> = Seq::empty();
        assert(segments(none) == seq![none]);
        assert(segments(none).drop_last() == Seq::<Seq<u8>>::empty());
        assert(segment_components(segments(none).drop_last()) == Seq::<ComponentView>::empty());
        assert(parse_path(none) == path);
    } else {
        let head = path.drop_last();
        let last = path.last();
        assert(fits(path[path.len() - 1], path.len() - 1));
        assert forall|i: int| 0 <= i < head.len() implies fits(#[trigger] head[i], i) by {
            assert(head[i] == path[i]);
        }
        text_names_path(head);
        let before = path_text(head);
        let name = component_text(last);
        let text = path_text(path);
        let none: Seq<u8> = Seq::empty();
        reveal_with_fuel(segment_components, 3);
        reveal_with_fuel(path_text, 3);
        assert(head.push(last) == path);
        if head.len() == 0 {
            assert(text == name) by {
                assert(none + none + name == name);
            }
            assert(path == seq![last]);
            assert(segments(none) == seq![none]);
            if last is RootDir {
                assert(text.drop_last() == none);
                assert(segments(text) == seq![none, none]);
                assert(segments(text).drop_last() == seq![none]);
                assert(seq![none].drop_last() == Seq::<Seq<u8>>::empty());
                assert(segment_components(seq![none]) == Seq::<ComponentView>::empty());
                assert(parse_path(text) == path);
            } else if last is CurDir {
                assert(text.drop_last() == none);
                assert(segments(text) == seq![seq![DOT]]);
                assert(segments(text).drop_last() == Seq::<Seq<u8>>::empty());
                assert(parse_path(text) == path);
            } else {
                lemma_component_text(last);
                lemma_segments_append(none, name);
                assert(none + name == name);
                assert(segments(none).drop_last() == Seq::<Seq<u8>>::empty());
                assert(segments(text) == seq![name]);
                assert(segments(text).drop_last() == Seq::<Seq<u8>>::empty());
                assert(name.contains(name[0]));
                assert(parse_path(text) == path);
            }
        } else {
            assert(fits(last, 1));
            lemma_component_text(last);
            if head.last() is RootDir {
                assert(fits(head[head.len() - 1], head.len() - 1));
                assert(head == seq![ComponentView::RootDir]);
                assert(head.drop_last() == Seq::<ComponentView>::empty());
                assert(before == seq![SLASH]) by {
                    assert(none + none + seq![SLASH] == seq![SLASH]);
                }
                assert(before == none.push(SLASH));
                assert(text == before + name) by {
                    assert(before + none == before);
                }
                lemma_segments_of_name(none, name);
                assert(segments(none) == seq![none]);
                assert(segments(text) == seq![none, name]);
                assert(segments(text).drop_last() == seq![none]);
                assert(seq![none].drop_last() == Seq::<Seq<u8>>::empty());
                assert(segment_components(seq![none]) == Seq::<ComponentView>::empty());
                assert(parse_path(text) == path);
            } else {
                assert(text == before.push(SLASH) + name) by {
                    assert(before + seq![SLASH] == before.push(SLASH));
                }
                lemma_segments_of_name(before, name);
                lemma_segments_free_of_slash(before);
                assert(segments(before).push(name).drop_last() == segments(before));
                assert(text[0] == before[0]);
                assert(root_of(text) == root_of(before));
                assert(parse_path(text) == parse_path(before).push(last));
            }
        }
    }
}

/// The shortest spelling of a path.
fn shortest(components: &Vec<Component>) -> (text: Vec<u8>)
    ensures
        text@ == path_text(views(components@)),
{
    let ghost path = views(components@);
    let mut text: Vec<u8> = Vec::new();
    let mut slash = false;
    let mut i: usize = 0;
    while i < components.len()
        invariant
            path == views(components@),
            i <= components@.len(),
            text@ == path_text(path.take(i as int)),
            separator(path.take(i as int)) == if slash {
                seq![SLASH]
            } else {
                Seq::empty()
            },
        decreases components@.len() - i,
    {
        let ghost head = path.take(i as int);
        let ghost before = text@;
        assert(path.take(i + 1).drop_last() == head);
        assert(path.take(i + 1).last() == path[i as int]);
        if slash {
            text.push(SLASH);
        }
        assert(text@ == before + separator(head));
        let ghost separated = text@;
        match &components[i] {
            Component::RootDir => {
                text.push(SLASH);
                slash = false;
            },
            Component::CurDir => {
                text.push(DOT);
                slash = true;
            },
            Component::ParentDir => {
                text.push(DOT);
                text.push(DOT);
                slash = true;
            },
            Component::Normal(name) => {
                let mut copy = copied(name);
                text.append(&mut copy);
                slash = true;
            },
        }
        assert(text@ == separated + component_text(path[i as int]));
        i += 1;
    }
    assert(path.take(path.len() as int) == path);
    text
}

// ---------------------------------------------------------------------------
// Order and equality
// ---------------------------------------------------------------------------

/// The kinds of components in their order.
pub open spec fn component_rank(component: ComponentView) -> int {
    match component {
        ComponentView::RootDir => 0,
        ComponentView::CurDir => 1,
        ComponentView::ParentDir => 2,
        ComponentView::Normal(_) => 3,
    }
}

/// Whether component `a` stands before component `b`: names last, in the order
/// of their bytes.
pub open spec fn component_before(a: ComponentView, b: ComponentView) -> bool {
    match (a, b) {
        (ComponentView::Normal(x), ComponentView::Normal(y)) => bytes_before(x, y),
        _ => component_rank(a) < component_rank(b),
    }
}

/// Whether path `a` stands before path `b`: by the first component in which
/// they differ.
pub open spec fn path_before(a: PathView, b: PathView) -> bool
    decreases a.len(),
{
    if b.len() == 0 {
        false
    } else if a.len() == 0 {
        true
    } else if a[0] == b[0] {
        path_before(a.drop_first(), b.drop_first())
    } else {
        component_before(a[0], b[0])
    }
}

proof fn lemma_component_before_total(a: ComponentView, b: ComponentView)
    ensures
        a == b ==> !component_before(a, b),
        component_before(a, b) ==> !component_before(b, a),
        component_before(a, b) || component_before(b, a) || a == b,
{
    if let (ComponentView::Normal(x), ComponentView::Normal(y)) = (a, b) {
        lemma_bytes_before_total(x, y);
    }
}

proof fn lemma_component_before_transitive(a: ComponentView, b: ComponentView, c: ComponentView)
    requires
        component_before(a, b),
        component_before(b, c),
    ensures
        component_before(a, c),
{
    if let (ComponentView::Normal(x), ComponentView::Normal(y), ComponentView::Normal(z)) = (
        a,
        b,
        c,
    ) {
        lemma_bytes_before_transitive(x, y, z);
    }
}

proof fn lemma_path_before_total(a: PathView, b: PathView)
    ensures
        a == b ==> !path_before(a, b),
        path_before(a, b) ==> !path_before(b, a),
        path_before(a, b) || path_before(b, a) || a == b,
    decreases a.len(),
{
    if a.len() > 0 && b.len() > 0 {
        lemma_component_before_total(a[0], b[0]);
        if a[0] == b[0] {
            lemma_path_before_total(a.drop_first(), b.drop_first());
            if a.drop_first() == b.drop_first() {
                assert(a == seq![a[0]] + a.drop_first());
                assert(b == seq![b[0]] + b.drop_first());
            }
        }
    } else if a.len() == 0 && b.len() == 0 {
        assert(a == b);
    }
}

proof fn lemma_path_before_transitive(a: PathView, b: PathView, c: PathView)
    requires
        path_before(a, b),
        path_before(b, c),
    ensures
        path_before(a, c),
    decreases a.len(),
{
    if a.len() > 0 {
        if a[0] == b[0] && b[0] == c[0] {
            lemma_path_before_transitive(a.drop_first(), b.drop_first(), c.drop_first());
        } else if a[0] != b[0] && b[0] != c[0] {
            lemma_component_before_transitive(a[0], b[0], c[0]);
            lemma_component_before_total(a[0], c[0]);
        }
    }
}

impl Component {
    fn rank(&self) -> (res: u8)
        ensures
            res == component_rank(self@),
    {
        match self {
            Component::RootDir => 0,
            Component::CurDir => 1,
            Component::ParentDir => 2,
            Component::Normal(_) => 3,
        }
    }

    fn is_before(&self, other: &Component) -> (res: bool)
        ensures
            res == component_before(self@, other@),
    {
        match (self, other) {
            (Component::Normal(a), Component::Normal(b)) => is_bytes_before(a.as_slice(), b.as_slice()),
            _ => self.rank() < other.rank(),
        }
    }
}

impl Key for VirtualPath {
    open spec fn before(a: PathView, b: PathView) -> bool {
        path_before(a, b)
    }

    proof fn before_is_total(a: PathView, b: PathView) {
        lemma_path_before_total(a, b);
    }

    proof fn before_is_transitive(a: PathView, b: PathView, c: PathView) {
        lemma_path_before_transitive(a, b, c);
    }

    fn is_before(&self, other: &VirtualPath) -> (res: bool) {
        proof {
            use_type_invariant(self);
            use_type_invariant(other);
        }
        let x = &self.components;
        let y = &other.components;
        let mut i: usize = 0;
        assert(self@.skip(0) == self@);
        assert(other@.skip(0) == other@);
        while i < x.len() && i < y.len() && x[i].same(&y[i])
            invariant
                views(x@) == self@,
                views(y@) == other@,
                i <= x@.len(),
                i <= y@.len(),
                path_before(self@, other@) == path_before(
                    self@.skip(i as int),
                    other@.skip(i as int),
                ),
            decreases x@.len() - i,
        {
            assert(self@.skip(i as int).drop_first() == self@.skip(i + 1));
            assert(other@.skip(i as int).drop_first() == other@.skip(i + 1));
            i += 1;
        }
        if i < y.len() {
            i == x.len() || x[i].is_before(&y[i])
        } else {
            false
        }
    }
}

impl PartialEq for VirtualPath {
    fn eq(&self, other: &VirtualPath) -> (res: bool) {
        proof {
            use_type_invariant(self);
            use_type_invariant(other);
        }
        let len = self.components.len();
        if len != other.components.len() {
            assert(self@.len() != other@.len());
            return false;
        }
        let mut i: usize = 0;
        while i < len
            invariant
                i <= len,
                len == self.components@.len(),
                len == other.components@.len(),
                views(self.components@) == self@,
                views(other.components@) == other@,
                forall|j: int| 0 <= j < i ==> #[trigger] self@[j] == other@[j],
            decreases len - i,
        {
            if !self.components[i].same(&other.components[i]) {
                assert(self@[i as int] != other@[i as int]);
                return false;
            }
            i += 1;
        }
        assert(self@ == other@);
        true
    }
}

impl vstd::std_specs::cmp::PartialEqSpecImpl for VirtualPath {
    open spec fn obeys_eq_spec() -> bool {
        true
    }

    open spec fn eq_spec(&self, other: &VirtualPath) -> bool {
        self@ == other@
    }
}

impl Eq for VirtualPath {
}

} // verus!
