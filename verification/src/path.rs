//! Paths of source files.

use crate::ord_map::MapKey;
use crate::order;
use crate::order::{compare_text, same_text, Rank, TotalOrder};
use crate::text;
use crate::text::split;
use vstd::prelude::*;

verus! {

/// One step of a path.
pub enum Part {
    RootDir,
    CurDir,
    ParentDir,
    Normal(Seq<char>),
}

impl Part {
    /// Where the kind of step stands among the others.
    pub open spec fn kind(self) -> int {
        match self {
            Part::RootDir => 0,
            Part::CurDir => 1,
            Part::ParentDir => 2,
            Part::Normal(_) => 3,
        }
    }
}

/// Steps are ordered by their kind, and names among themselves as texts.
impl TotalOrder for Part {
    open spec fn before(self, other: Self) -> bool {
        match (self, other) {
            (Part::Normal(a), Part::Normal(b)) => order::lexicographic(a, b),
            _ => self.kind() < other.kind(),
        }
    }

    proof fn lemma_irreflexive(a: Self) {
        if let Part::Normal(name) = a {
            <Seq<char> as TotalOrder>::lemma_irreflexive(name);
        }
    }

    proof fn lemma_transitive(a: Self, b: Self, c: Self) {
        if let (Part::Normal(x), Part::Normal(y), Part::Normal(z)) = (a, b, c) {
            <Seq<char> as TotalOrder>::lemma_transitive(x, y, z);
        }
    }

    proof fn lemma_total(a: Self, b: Self) {
        if let (Part::Normal(x), Part::Normal(y)) = (a, b) {
            <Seq<char> as TotalOrder>::lemma_total(x, y);
        }
    }
}

/// Whether a segment is a step: the empty one and `.` lead nowhere.
pub open spec fn is_step(segment: Seq<char>) -> bool {
    segment.len() > 0 && segment != seq!['.']
}

/// The step that a segment stands for.
pub open spec fn step(segment: Seq<char>) -> Part {
    if segment == seq!['.', '.'] {
        Part::ParentDir
    } else {
        Part::Normal(segment)
    }
}

/// What a path starts from: the root, the current directory where it says so, or nothing.
pub open spec fn origin(path: Seq<char>) -> Seq<Part> {
    if path.len() > 0 && path[0] == '/' {
        seq![Part::RootDir]
    } else if text::pieces(path, '/')[0] == seq!['.'] {
        seq![Part::CurDir]
    } else {
        Seq::empty()
    }
}

/// The steps of a path. Repeated and trailing slashes make no difference, nor does `.` anywhere
/// but at the start.
pub open spec fn parts(path: Seq<char>) -> Seq<Part> {
    origin(path) + steps_of(text::pieces(path, '/'))
}

/// The steps that segments stand for.
pub open spec fn steps_of(segments: Seq<Seq<char>>) -> Seq<Part> {
    segments.filter(|s: Seq<char>| is_step(s)).map_values(|s: Seq<char>| step(s))
}

/// The steps of one list of segments after another.
proof fn lemma_steps_of_add(a: Seq<Seq<char>>, b: Seq<Seq<char>>)
    ensures
        steps_of(a + b) == steps_of(a) + steps_of(b),
{
    let keep = |s: Seq<char>| is_step(s);
    Seq::filter_distributes_over_add(a, b, keep);
    assert(steps_of(a + b) =~= steps_of(a) + steps_of(b));
}

/// A segment that is no step adds none.
proof fn lemma_no_step(segment: Seq<char>)
    requires
        !is_step(segment),
    ensures
        steps_of(seq![segment]) == Seq::<Part>::empty(),
{
    let keep = |s: Seq<char>| is_step(s);
    assert(seq![segment].filter(keep) =~= Seq::empty()) by {
        reveal_with_fuel(Seq::filter, 2);
        assert(seq![segment].drop_last() =~= Seq::empty());
    }
    assert(steps_of(seq![segment]) =~= Seq::empty());
}

/// Where a path goes on does not change what it starts from.
proof fn lemma_origin_join(a: Seq<char>, b: Seq<char>, c: Seq<char>)
    ensures
        origin(a.push('/') + b) == origin(a.push('/') + c),
        a.len() > 0 ==> origin(a.push('/') + b) == origin(a),
{
    text::lemma_pieces_join(a, b, '/');
    text::lemma_pieces_join(a, c, '/');
    text::lemma_leading_separator(a, '/');
    let x = a.push('/') + b;
    let y = a.push('/') + c;
    assert(x[0] == y[0]);
    if a.len() > 0 {
        assert(x[0] == a[0]);
    }
}

/// A slash at the end of a path makes no difference, unless it is all there is.
pub proof fn lemma_trailing_slash(path: Seq<char>)
    requires
        path.len() > 0,
    ensures
        parts(path.push('/')) == parts(path),
{
    let none = Seq::<char>::empty();
    assert(path.push('/') + none =~= path.push('/'));
    lemma_origin_join(path, none, none);
    text::lemma_pieces_join(path, none, '/');
    lemma_steps_of_add(text::pieces(path, '/'), text::pieces(none, '/'));
    lemma_no_step(none);
    assert(steps_of(text::pieces(path, '/')) + Seq::<Part>::empty() =~= steps_of(
        text::pieces(path, '/'),
    ));
}

/// Two slashes in a row are as one.
pub proof fn lemma_repeated_slash(a: Seq<char>, b: Seq<char>)
    ensures
        parts(a + seq!['/', '/'] + b) == parts(a + seq!['/'] + b),
{
    lemma_empty_segment(a, Seq::empty(), b);
    assert(a + seq!['/', '/'] + b =~= a.push('/') + (Seq::<char>::empty().push('/') + b));
    assert(a + seq!['/'] + b =~= a.push('/') + b);
}

/// A `.` between two slashes makes no difference.
pub proof fn lemma_current_directory(a: Seq<char>, b: Seq<char>)
    ensures
        parts(a + seq!['/', '.', '/'] + b) == parts(a + seq!['/'] + b),
{
    let dot = seq!['.'];
    assert(text::pieces(dot, '/') =~= seq![dot]) by {
        reveal_with_fuel(text::pieces, 2);
        assert(dot.drop_last() =~= Seq::empty());
        assert(Seq::<char>::empty().push('.') =~= dot);
    }
    lemma_empty_segment(a, dot, b);
    assert(a + seq!['/', '.', '/'] + b =~= a.push('/') + (dot.push('/') + b));
    assert(a + seq!['/'] + b =~= a.push('/') + b);
}

/// A segment in the middle of a path that is no step makes no difference.
proof fn lemma_empty_segment(a: Seq<char>, segment: Seq<char>, b: Seq<char>)
    requires
        !is_step(segment),
        text::pieces(segment, '/') == seq![segment],
    ensures
        parts(a.push('/') + (segment.push('/') + b)) == parts(a.push('/') + b),
{
    let rest = segment.push('/') + b;
    let (p, q, r) = (
        text::pieces(a, '/'),
        text::pieces(segment, '/'),
        text::pieces(b, '/'),
    );
    lemma_origin_join(a, rest, b);
    text::lemma_pieces_join(a, rest, '/');
    text::lemma_pieces_join(segment, b, '/');
    text::lemma_pieces_join(a, b, '/');
    lemma_steps_of_add(p, q + r);
    lemma_steps_of_add(q, r);
    lemma_steps_of_add(p, r);
    lemma_no_step(segment);
    assert(Seq::<Part>::empty() + steps_of(r) =~= steps_of(r));
}

/// The last step of a path, if it is a name.
pub open spec fn file_name(path: Seq<Part>) -> Option<Seq<char>> {
    if path.len() == 0 {
        None
    } else {
        match path.last() {
            Part::Normal(name) => Some(name),
            _ => None,
        }
    }
}

/// What follows the last dot of a file name, unless that dot is the first character or there is
/// none.
pub open spec fn name_extension(name: Seq<char>) -> Option<Seq<char>> {
    match name.index_of_last('.') {
        Some(dot) => if dot > 0 {
            Some(name.skip(dot + 1))
        } else {
            None
        },
        None => None,
    }
}

/// The extension of a path's file name.
pub open spec fn extension(path: Seq<Part>) -> Option<Seq<char>> {
    match file_name(path) {
        Some(name) => name_extension(name),
        None => None,
    }
}

/// One step of a path, borrowed from its text.
enum Component<'a> {
    RootDir,
    CurDir,
    ParentDir,
    Normal(&'a str),
}

impl<'a> View for Component<'a> {
    type V = Part;

    closed spec fn view(&self) -> Part {
        match self {
            Component::RootDir => Part::RootDir,
            Component::CurDir => Part::CurDir,
            Component::ParentDir => Part::ParentDir,
            Component::Normal(name) => Part::Normal(name@),
        }
    }
}

/// The steps that components stand for.
spec fn steps(components: Seq<Component<'_>>) -> Seq<Part> {
    components.map_values(|c: Component<'_>| c@)
}

/// The steps of a path.
fn components(path: &str) -> (result: Vec<Component<'_>>)
    ensures
        steps(result@) == parts(path@),
{
    let names = split(path, '/');
    let ghost all = text::pieces(path@, '/');
    let mut result: Vec<Component<'_>> = Vec::new();
    proof {
        reveal_strlit(".");
        reveal_strlit("..");
        assert("."@ =~= seq!['.']);
        assert(".."@ =~= seq!['.', '.']);
        text::lemma_leading_separator(path@, '/');
        assert(text::texts(names@)[0] == names@[0]@);
    }
    if names.len() > 1 && names[0].is_empty() {
        result.push(Component::RootDir);
    } else if same_text(names[0], ".") {
        result.push(Component::CurDir);
    }
    let ghost lead = origin(path@);
    assert(steps(result@) =~= lead);
    let keep = Ghost(|s: Seq<char>| is_step(s));
    let read = Ghost(|s: Seq<char>| step(s));
    proof {
        assert(all.take(0) =~= Seq::empty());
        assert(all.take(0).filter(keep@) =~= Seq::empty()) by {
            reveal(Seq::filter);
        }
        assert(lead + Seq::<Seq<char>>::empty().map_values(read@) =~= lead);
    }
    for i in 0..names.len()
        invariant
            text::texts(names@) == all,
            all == text::pieces(path@, '/'),
            keep@ == (|s: Seq<char>| is_step(s)),
            read@ == (|s: Seq<char>| step(s)),
            "."@ == seq!['.'],
            ".."@ == seq!['.', '.'],
            steps(result@) == lead + all.take(i as int).filter(keep@).map_values(read@),
    {
        let piece: &str = names[i];
        proof {
            assert(text::texts(names@)[i as int] == piece@);
            assert(all.take(i + 1).drop_last() =~= all.take(i as int));
            reveal(Seq::filter);
        }
        let ghost kept = all.take(i as int).filter(keep@);
        if !piece.is_empty() && !same_text(piece, ".") {
            let next = if same_text(piece, "..") {
                Component::ParentDir
            } else {
                Component::Normal(piece)
            };
            proof {
                assert(all.take(i + 1).filter(keep@) == kept.push(piece@));
                assert(kept.push(piece@).map_values(read@) =~= kept.map_values(read@).push(
                    step(piece@),
                ));
                assert(steps(result@.push(next)) =~= steps(result@).push(step(piece@)));
                assert(steps(result@).push(step(piece@)) =~= lead + kept.map_values(read@).push(
                    step(piece@),
                ));
            }
            result.push(next);
        }
    }
    assert(all.take(names@.len() as int) =~= all);
    result
}

/// Compares two steps.
fn compare_components(a: &Component<'_>, b: &Component<'_>) -> (rank: Rank)
    ensures
        order::ranks(a@, b@, rank),
{
    match (a, b) {
        (Component::Normal(x), Component::Normal(y)) => compare_text(x, y),
        (Component::RootDir, Component::RootDir) => Rank::Equal,
        (Component::RootDir, _) => Rank::Less,
        (_, Component::RootDir) => Rank::Greater,
        (Component::CurDir, Component::CurDir) => Rank::Equal,
        (Component::CurDir, _) => Rank::Less,
        (_, Component::CurDir) => Rank::Greater,
        (Component::ParentDir, Component::ParentDir) => Rank::Equal,
        (Component::ParentDir, _) => Rank::Less,
        (_, Component::ParentDir) => Rank::Greater,
    }
}

/// Compares two paths step by step.
fn compare_paths(a: &str, b: &str) -> (rank: Rank)
    ensures
        order::ranks(parts(a@), parts(b@), rank),
{
    let xs = components(a);
    let ys = components(b);
    let ghost p = parts(a@);
    let ghost q = parts(b@);
    let mut i: usize = 0;
    assert(p.skip(0) =~= p);
    assert(q.skip(0) =~= q);
    while i < xs.len() && i < ys.len()
        invariant
            i <= xs@.len(),
            i <= ys@.len(),
            p == parts(a@),
            q == parts(b@),
            steps(xs@) == p,
            steps(ys@) == q,
            order::lexicographic(p, q) == order::lexicographic(p.skip(i as int), q.skip(i as int)),
            order::lexicographic(q, p) == order::lexicographic(q.skip(i as int), p.skip(i as int)),
            p.take(i as int) == q.take(i as int),
        decreases xs@.len() - i,
    {
        proof {
            assert(p[i as int] == xs@[i as int]@);
            assert(q[i as int] == ys@[i as int]@);
            assert(p.skip(i as int).drop_first() =~= p.skip(i + 1));
            assert(q.skip(i as int).drop_first() =~= q.skip(i + 1));
            Part::lemma_irreflexive(p[i as int]);
        }
        match compare_components(&xs[i], &ys[i]) {
            Rank::Less => {
                return Rank::Less;
            },
            Rank::Greater => {
                return Rank::Greater;
            },
            Rank::Equal => {
                assert(p.take(i + 1) =~= p.take(i as int).push(p[i as int]));
                assert(q.take(i + 1) =~= q.take(i as int).push(q[i as int]));
            },
        }
        i = i + 1;
    }
    if i < xs.len() {
        Rank::Greater
    } else if i < ys.len() {
        Rank::Less
    } else {
        assert(p.take(i as int) =~= p);
        assert(q.take(i as int) =~= q);
        Rank::Equal
    }
}

/// The path of a source file, with `/` between its steps.
///
/// Two spellings of the same steps are the same path. The rules are those of Unix on every
/// platform: a backslash is a character like any other, and there are no drives.
#[derive(Clone, Debug, Eq)]
pub struct SourcePath {
    pub text: String,
}

impl View for SourcePath {
    type V = Seq<Part>;

    /// The steps of the path.
    open spec fn view(&self) -> Seq<Part> {
        parts(self.text@)
    }
}

/// Paths are keys in the order of their steps.
impl MapKey for SourcePath {
    type Order = Seq<Part>;

    open spec fn order(&self) -> Seq<Part> {
        self@
    }

    fn compare(&self, other: &Self) -> (rank: Rank) {
        compare_paths(self.text.as_str(), other.text.as_str())
    }

    fn duplicate(&self) -> (copy: Self) {
        SourcePath { text: self.text.clone() }
    }
}

impl PartialEq for SourcePath {
    fn eq(&self, other: &Self) -> (same: bool) {
        proof {
            <Seq<Part> as TotalOrder>::lemma_irreflexive(self@);
        }
        match compare_paths(self.text.as_str(), other.text.as_str()) {
            Rank::Equal => true,
            _ => false,
        }
    }
}

impl vstd::std_specs::cmp::PartialEqSpecImpl for SourcePath {
    open spec fn obeys_eq_spec() -> bool {
        true
    }

    open spec fn eq_spec(&self, other: &Self) -> bool {
        self@ == other@
    }
}

impl SourcePath {
    /// Makes a path of its text.
    pub fn new(text: &str) -> (path: Self)
        ensures
            path.text@ == text@,
    {
        SourcePath { text: text.to_owned() }
    }

    /// What follows the last dot of the path's file name. There is none where the path does not
    /// end in a name, the name has no dot, or its only dot is its first character.
    pub fn extension(&self) -> (ext: Option<String>)
        ensures
            match ext {
                Some(e) => extension(self@) == Some(e@),
                None => extension(self@) is None,
            },
    {
        let all = components(self.text.as_str());
        let n: usize = all.len();
        if n == 0 {
            return None;
        }
        assert(self@.last() == all@[n - 1]@);
        match &all[n - 1] {
            Component::Normal(name) => {
                let len: usize = name.unicode_len();
                let mut dot: Option<usize> = None;
                let mut at: usize = 0;
                for c in it: name.chars()
                    invariant
                        it.seq() == name@,
                        at == it.index(),
                        at <= len,
                        len == name@.len(),
                        match dot {
                            Some(d) => d < at && name@[d as int] == '.' && (forall|j: int|
                                d < j < at ==> name@[j] != '.'),
                            None => forall|j: int| 0 <= j < at ==> name@[j] != '.',
                        },
                {
                    if c == '.' {
                        dot = Some(at);
                    }
                    at = at + 1;
                }
                proof {
                    name@.index_of_last_ensures('.');
                    if let Some(d) = dot {
                        assert(name@.contains('.'));
                        assert(name@.index_of_last('.') == Some(d as int));
                        assert(name@.skip(d + 1) =~= name@.subrange(d + 1, len as int));
                    }
                }
                match dot {
                    Some(d) => if d > 0 {
                        Some(name.substring_char(d + 1, len).to_owned())
                    } else {
                        None
                    },
                    None => None,
                }
            },
            _ => None,
        }
    }

    /// Whether the file is a source of the compiler, by its extension.
    pub fn is_source_file(&self) -> (b: bool)
        ensures
            b == (extension(self@) == Some("sol"@) || extension(self@) == Some("yul"@)),
    {
        match self.extension() {
            Some(e) => same_text(e.as_str(), "sol") || same_text(e.as_str(), "yul"),
            None => false,
        }
    }
}

/// The steps of one segment.
proof fn lemma_one_step(segment: Seq<char>)
    requires
        is_step(segment),
    ensures
        steps_of(seq![segment]) == seq![step(segment)],
{
    let keep = |s: Seq<char>| is_step(s);
    assert(seq![segment].filter(keep) =~= seq![segment]) by {
        reveal_with_fuel(Seq::filter, 2);
        assert(seq![segment].drop_last() =~= Seq::empty());
        assert(Seq::<Seq<char>>::empty().push(segment) =~= seq![segment]);
    }
    assert(steps_of(seq![segment]) =~= seq![step(segment)]);
}

/// The shortest paths: no step, the root, the current directory and the one above.
pub proof fn lemma_shortest_paths()
    ensures
        parts(Seq::empty()) == Seq::<Part>::empty(),
        parts(seq!['/']) == seq![Part::RootDir],
        parts(seq!['.']) == seq![Part::CurDir],
        parts(seq!['.', '.']) == seq![Part::ParentDir],
{
    let none = Seq::<char>::empty();
    let (dot, dots) = (seq!['.'], seq!['.', '.']);
    assert(!dot.contains('/'));
    assert(!dots.contains('/'));
    text::lemma_one_piece(none, '/');
    text::lemma_one_piece(dot, '/');
    text::lemma_one_piece(dots, '/');
    lemma_no_step(none);
    lemma_no_step(dot);
    assert(dots.len() != dot.len());
    lemma_one_step(dots);
    assert(none.push('/') + none =~= seq!['/']);
    text::lemma_pieces_join(none, none, '/');
    lemma_steps_of_add(seq![none], seq![none]);
    assert(none.len() != dot.len());
    assert(parts(none) =~= Seq::empty());
    assert(parts(seq!['/']) =~= seq![Part::RootDir]);
    assert(parts(dot) =~= seq![Part::CurDir]);
    assert(parts(dots) =~= seq![Part::ParentDir]);
}

/// A name alone is a path of one step. Behind a path and a slash it is one more step, and so are
/// two dots.
pub proof fn lemma_one_more_step(directory: Seq<char>, name: Seq<char>)
    requires
        name.len() > 0,
        !name.contains('/'),
        name != seq!['.'],
    ensures
        name != seq!['.', '.'] ==> parts(name) == seq![Part::Normal(name)],
        name != seq!['.', '.'] ==> parts(directory.push('/') + name) == (if directory.len() > 0 {
            parts(directory)
        } else {
            seq![Part::RootDir]
        }).push(Part::Normal(name)),
        name == seq!['.', '.'] ==> parts(directory.push('/') + name) == (if directory.len() > 0 {
            parts(directory)
        } else {
            seq![Part::RootDir]
        }).push(Part::ParentDir),
{
    let none = Seq::<char>::empty();
    let whole = directory.push('/') + name;
    text::lemma_one_piece(name, '/');
    text::lemma_pieces_join(directory, name, '/');
    lemma_steps_of_add(text::pieces(directory, '/'), seq![name]);
    lemma_one_step(name);
    assert(name[0] != '/');
    assert(parts(name) =~= seq![step(name)]);
    if directory.len() > 0 {
        lemma_origin_join(directory, name, name);
        assert(parts(whole) =~= parts(directory).push(step(name)));
    } else {
        assert(directory =~= none);
        text::lemma_one_piece(none, '/');
        lemma_no_step(none);
        assert(whole[0] == '/');
        assert(parts(whole) =~= seq![Part::RootDir].push(step(name)));
    }
}

/// A file name's extension is what follows its last dot, if there is anything before that.
pub proof fn lemma_extension_of_name(path: Seq<Part>, stem: Seq<char>, ext: Seq<char>)
    requires
        !ext.contains('.'),
    ensures
        stem.len() > 0 ==> extension(path.push(Part::Normal(stem.push('.') + ext))) == Some(ext),
        extension(path.push(Part::Normal(seq!['.'] + ext))) is None,
        extension(path.push(Part::Normal(ext))) is None,
        extension(path.push(Part::ParentDir)) is None,
        extension(path.push(Part::CurDir)) is None,
        extension(path.push(Part::RootDir)) is None,
        extension(Seq::empty()) is None,
{
    let name = stem.push('.') + ext;
    let hidden = seq!['.'] + ext;
    lemma_last_dot(stem, ext);
    assert(name.skip(stem.len() as int + 1) =~= ext);
    lemma_last_dot(Seq::empty(), ext);
    assert(Seq::<char>::empty().push('.') + ext =~= hidden);
    ext.index_of_last_ensures('.');
}

/// Where the last dot of a name is.
proof fn lemma_last_dot(stem: Seq<char>, ext: Seq<char>)
    requires
        !ext.contains('.'),
    ensures
        (stem.push('.') + ext).index_of_last('.') == Some(stem.len() as int),
{
    let name = stem.push('.') + ext;
    name.index_of_last_ensures('.');
    assert(name[stem.len() as int] == '.');
    assert(name.contains('.'));
    let last = name.index_of_last('.')->0;
    if last > stem.len() {
        assert(ext[last - stem.len() - 1] == '.');
    }
}

/// The root comes before the current directory, this before the one above, and this before names,
/// which stand as texts do.
pub proof fn lemma_order_of_steps(a: Seq<char>, b: Seq<char>)
    ensures
        Part::RootDir.before(Part::CurDir),
        Part::CurDir.before(Part::ParentDir),
        Part::ParentDir.before(Part::Normal(a)),
        Part::Normal(a).before(Part::Normal(b)) <==> a.before(b),
{
}

} // verus!
