//! Sources of a compilation.

use crate::ord_map;
use crate::ord_map::OrdMap;
use crate::path::SourcePath;
use md5::Digest;
use vstd::prelude::*;

verus! {

/// An ordered list of files and their source
pub type Sources = OrdMap<SourcePath, Source>;

/// The text of a source file.
#[derive(Clone, Debug, PartialEq, Eq)]
pub struct Source {
    pub content: String,
}

/// The MD5 digest of some bytes.
pub uninterp spec fn md5_digest(bytes: Seq<u8>) -> Seq<u8>;

/// `digest` of `md5::Md5`, which makes a hasher, hands it the bytes and takes its result: the MD5
/// digest, which has sixteen bytes.
#[verifier::external_body]
fn compute_md5(bytes: &[u8]) -> (digest: Vec<u8>)
    ensures
        digest@ == md5_digest(bytes@),
        digest@.len() == 16,
{
    md5::Md5::digest(bytes).to_vec()
}

/// The hexadecimal digit of a number below sixteen.
pub open spec fn hex_digit(n: int) -> char {
    "0123456789abcdef"@[n]
}

/// Each byte as two hexadecimal digits in lower case, the higher one first.
pub open spec fn hex_text(bytes: Seq<u8>) -> Seq<char> {
    Seq::new(
        2 * bytes.len(),
        |i: int|
            hex_digit(
                if i % 2 == 0 {
                    bytes[i / 2] as int / 16
                } else {
                    bytes[i / 2] as int % 16
                },
            ),
    )
}

/// `hex::encode`, which writes each byte as two hexadecimal digits in lower case, the higher one
/// first.
#[verifier::external_body]
fn encode_hex(bytes: &[u8]) -> (text: String)
    ensures
        text@ == hex_text(bytes@),
{
    hex::encode(bytes)
}

/// Whether a pair of byte positions encloses a part of a text, cutting no character.
pub open spec fn encloses(text: Seq<char>, range: (usize, usize)) -> bool {
    let bytes = vstd::utf8::encode_utf8(text);
    &&& range.0 <= range.1 <= bytes.len()
    &&& vstd::utf8::is_char_boundary(bytes, range.0 as int)
    &&& vstd::utf8::is_char_boundary(bytes, range.1 as int)
}

/// The bytes between two positions of a text.
pub open spec fn enclosed(text: Seq<char>, range: (usize, usize)) -> Seq<u8> {
    vstd::utf8::encode_utf8(text).subrange(range.0 as int, range.1 as int)
}

/// The part of a text between two byte positions.
fn part_between(text: &str, range: (usize, usize)) -> (part: &str)
    requires
        encloses(text@, range),
    ensures
        vstd::utf8::encode_utf8(part@) == enclosed(text@, range),
{
    let ghost bytes = vstd::utf8::encode_utf8(text@);
    let ghost (start, end) = (range.0 as int, range.1 as int);
    proof {
        vstd::utf8::encode_utf8_valid_utf8(text@);
        vstd::utf8::valid_utf8_split(bytes, end);
    }
    let (head, _) = text.split_at(range.1);
    proof {
        let front = bytes.subrange(0, end);
        if start < end {
            assert(front[start] == bytes[start]);
            vstd::utf8::is_char_boundary_iff_not_is_continuation_byte(bytes, start);
            vstd::utf8::is_char_boundary_iff_not_is_continuation_byte(front, start);
        } else {
            vstd::utf8::is_char_boundary_start_end_of_seq(front);
        }
        assert(front.subrange(start, end) =~= bytes.subrange(start, end));
    }
    let (_, part) = head.split_at(range.0);
    part
}

/// What came of reading files, in the order in which they were read.
pub type Reads<E> = Seq<(SourcePath, Result<Source, E>)>;

/// Whether the read at a position is the first that failed.
pub open spec fn fails_first<E>(reads: Reads<E>, i: int) -> bool {
    &&& 0 <= i < reads.len()
    &&& reads[i].1 is Err
    &&& forall|j: int| 0 <= j < i ==> (#[trigger] reads[j]).1 is Ok
}

/// The sources of reads that went well. Of two for the same path the later one counts.
pub open spec fn collected<E>(reads: Reads<E>) -> Seq<(SourcePath, Source)>
    decreases reads.len(),
{
    if reads.len() == 0 {
        Seq::empty()
    } else {
        ord_map::put(collected(reads.drop_last()), reads.last().0, reads.last().1->Ok_0)
    }
}

/// One more read sets the source of its path and leaves all others.
proof fn lemma_collected_step<E>(reads: Reads<E>)
    requires
        reads.len() > 0,
    ensures
        ord_map::increasing(collected(reads)),
        ord_map::dict(collected(reads)) == ord_map::dict(collected(reads.drop_last())).insert(
            reads.last().0@,
            reads.last().1->Ok_0,
        ),
{
    lemma_collected_increasing(reads.drop_last());
    ord_map::lemma_put_dict(
        collected(reads.drop_last()),
        reads.last().0,
        reads.last().1->Ok_0,
    );
}

/// The sources of reads that went well are in the order of their paths.
pub proof fn lemma_collected_increasing<E>(reads: Reads<E>)
    ensures
        ord_map::increasing(collected(reads)),
    decreases reads.len(),
{
    if reads.len() > 0 {
        lemma_collected_increasing(reads.drop_last());
        ord_map::lemma_put_dict(
            collected(reads.drop_last()),
            reads.last().0,
            reads.last().1->Ok_0,
        );
    }
}

/// Of the reads of one path the last one gives its source.
pub proof fn lemma_collected<E>(reads: Reads<E>, i: int)
    requires
        0 <= i < reads.len(),
        forall|j: int| i < j < reads.len() ==> (#[trigger] reads[j]).0@ != reads[i].0@,
    ensures
        ord_map::dict(collected(reads)).contains_key(reads[i].0@),
        ord_map::dict(collected(reads))[reads[i].0@] == reads[i].1->Ok_0,
    decreases reads.len(),
{
    lemma_collected_step(reads);
    if i < reads.len() - 1 {
        let init = reads.drop_last();
        assert(reads[reads.len() - 1].0@ != reads[i].0@);
        assert forall|j: int| i < j < init.len() implies (#[trigger] init[j]).0@ != init[i].0@ by {
            assert(init[j] == reads[j]);
        }
        lemma_collected(init, i);
    }
}

/// Only paths that were read have a source.
pub proof fn lemma_collected_were_read<E>(reads: Reads<E>, path: Seq<crate::path::Part>)
    requires
        ord_map::dict(collected(reads)).contains_key(path),
    ensures
        exists|i: int| 0 <= i < reads.len() && (#[trigger] reads[i]).0@ == path,
    decreases reads.len(),
{
    if reads.len() == 0 {
        assert(ord_map::has_entry(collected(reads), path));
    } else {
        lemma_collected_step(reads);
        if path == reads.last().0@ {
            assert(reads[reads.len() - 1].0@ == path);
        } else {
            let init = reads.drop_last();
            lemma_collected_were_read(init, path);
            let i = choose|i: int| 0 <= i < init.len() && (#[trigger] init[i]).0@ == path;
            assert(reads[i].0@ == path);
        }
    }
}

impl Source {
    /// this is a heuristically measured threshold at which we can generally expect a speedup by
    /// reading in parallel, see [`Source::reads_in_parallel`]
    pub const NUM_READ_PAR: usize = 8;

    /// Whether that many files are to be read in parallel.
    pub fn reads_in_parallel(files: usize) -> (b: bool)
        ensures
            b == (files >= Source::NUM_READ_PAR),
    {
        !(files < Self::NUM_READ_PAR)
    }

    /// Makes sources of what came of reading files: all of them, or the first failure.
    pub fn read_all<E>(files: Vec<(SourcePath, Result<Source, E>)>) -> (result: Result<Sources, E>)
        ensures
            match result {
                Ok(sources) => (forall|i: int|
                    0 <= i < files@.len() ==> (#[trigger] files@[i]).1 is Ok) && sources@
                    == collected(files@),
                Err(error) => exists|i: int| #[trigger]
                    fails_first(files@, i) && files@[i].1 == Err::<Source, E>(error),
            },
    {
        let ghost reads = files@;
        let mut sources: Sources = OrdMap::new();
        assert(reads.take(0) =~= Seq::empty());
        for file in it: files
            invariant
                it.seq() == reads,
                files@ == reads,
                forall|j: int| 0 <= j < it.index() ==> (#[trigger] reads[j]).1 is Ok,
                sources@ == collected(reads.take(it.index() as int)),
        {
            let ghost n = it.index() as int;
            let (path, read) = file;
            assert(reads.take(n + 1).drop_last() =~= reads.take(n));
            match read {
                Ok(source) => {
                    sources.insert(path, source);
                },
                Err(error) => {
                    assert(fails_first(reads, n));
                    return Err(error);
                },
            }
        }
        assert(reads.take(reads.len() as int) =~= reads);
        Ok(sources)
    }

    /// Generate a non-cryptographically secure checksum of the file's content
    pub fn content_hash(&self) -> (hash: String)
        ensures
            hash@ == hex_text(md5_digest(vstd::utf8::encode_utf8(self.content@))),
            hash@.len() == 32,
    {
        let digest = compute_md5(self.content.as_str().as_bytes());
        Source::hash_text(digest.as_slice())
    }

    /// Returns the paths of all import statements of the file, given where they were found in its
    /// text.
    pub fn parse_imports(&self, found: &Vec<(usize, usize)>) -> (imports: Vec<&str>)
        requires
            forall|i: int|
                0 <= i < found@.len() ==> encloses(self.content@, #[trigger] found@[i]),
        ensures
            imports@.len() == found@.len(),
            forall|i: int|
                0 <= i < found@.len() ==> vstd::utf8::encode_utf8((#[trigger] imports@[i])@)
                    == enclosed(self.content@, found@[i]),
    {
        let mut imports: Vec<&str> = Vec::new();
        for i in 0..found.len()
            invariant
                forall|j: int|
                    0 <= j < found@.len() ==> encloses(self.content@, #[trigger] found@[j]),
                imports@.len() == i,
                forall|j: int|
                    0 <= j < i ==> vstd::utf8::encode_utf8((#[trigger] imports@[j])@) == enclosed(
                        self.content@,
                        found@[j],
                    ),
        {
            imports.push(part_between(self.content.as_str(), found[i]));
        }
        imports
    }

    /// How a checksum is written.
    pub fn hash_text(digest: &[u8]) -> (text: String)
        ensures
            text@ == hex_text(digest@),
    {
        encode_hex(digest)
    }
}

impl AsRef<str> for Source {
    fn as_ref(&self) -> (text: &str)
        ensures
            text@ == self.content@,
    {
        self.content.as_str()
    }
}

/// The read that fails first failed, and none before it did. There is just one such.
pub proof fn lemma_first_failure<E>(reads: Reads<E>, i: int, j: int)
    ensures
        fails_first(reads, i) ==> 0 <= i < reads.len() && reads[i].1 is Err,
        fails_first(reads, i) && 0 <= j < i ==> reads[j].1 is Ok,
        fails_first(reads, i) && fails_first(reads, j) ==> i == j,
        0 <= j < reads.len() && reads[j].1 is Err ==> exists|k: int|
            k <= j && #[trigger] fails_first(reads, k),
    decreases j,
{
    if 0 <= j < reads.len() && reads[j].1 is Err {
        if exists|k: int| 0 <= k < j && (#[trigger] reads[k]).1 is Err {
            let k = choose|k: int| 0 <= k < j && (#[trigger] reads[k]).1 is Err;
            lemma_first_failure(reads, i, k);
            let m = choose|m: int| m <= k && #[trigger] fails_first(reads, m);
            assert(m <= j && fails_first(reads, m));
        } else {
            assert(fails_first(reads, j));
        }
    }
}

/// Bytes are written one after the other, each as two digits that stand for its two halves.
pub proof fn lemma_hex_digits(bytes: Seq<u8>, i: int)
    requires
        0 <= i < bytes.len(),
    ensures
        hex_text(bytes).len() == 2 * bytes.len(),
        hex_text(bytes)[2 * i] as int == (if bytes[i] as int / 16 < 10 {
            '0' as int + bytes[i] as int / 16
        } else {
            'a' as int + bytes[i] as int / 16 - 10
        }),
        hex_text(bytes)[2 * i + 1] as int == (if bytes[i] as int % 16 < 10 {
            '0' as int + bytes[i] as int % 16
        } else {
            'a' as int + bytes[i] as int % 16 - 10
        }),
{
    reveal_strlit("0123456789abcdef");
    assert((2 * i) % 2 == 0 && (2 * i) / 2 == i);
    assert((2 * i + 1) % 2 == 1 && (2 * i + 1) / 2 == i);
}

/// The bytes of two texts, one after the other.
proof fn lemma_encode_add(a: Seq<char>, b: Seq<char>)
    ensures
        vstd::utf8::encode_utf8(a + b) == vstd::utf8::encode_utf8(a) + vstd::utf8::encode_utf8(b),
    decreases a.len(),
{
    if a.len() == 0 {
        assert(a + b =~= b);
        assert(vstd::utf8::encode_utf8(a) + vstd::utf8::encode_utf8(b) =~= vstd::utf8::encode_utf8(
            b,
        ));
    } else {
        lemma_encode_add(a.drop_first(), b);
        assert((a + b).drop_first() =~= a.drop_first() + b);
        assert(vstd::utf8::encode_utf8(a + b) =~= vstd::utf8::encode_utf8(a)
            + vstd::utf8::encode_utf8(b));
    }
}

/// A text can be cut where another one goes on.
proof fn lemma_boundary_between(a: Seq<char>, b: Seq<char>)
    ensures
        vstd::utf8::is_char_boundary(
            vstd::utf8::encode_utf8(a + b),
            vstd::utf8::encode_utf8(a).len() as int,
        ),
    decreases a.len(),
{
    let bytes = vstd::utf8::encode_utf8(a + b);
    vstd::utf8::encode_utf8_valid_utf8(a + b);
    lemma_encode_add(a, b);
    if a.len() > 0 {
        let rest = a.drop_first();
        lemma_boundary_between(rest, b);
        assert((a + b).drop_first() =~= rest + b);
        vstd::utf8::encode_utf8_first_scalar(a + b);
        assert(vstd::utf8::pop_first_scalar(bytes) =~= vstd::utf8::encode_utf8(rest + b));
    }
}

/// The part of a text between what comes before it and what comes after it can be cut out, and it
/// is that part.
pub proof fn lemma_enclosed_part(
    before: Seq<char>,
    part: Seq<char>,
    after: Seq<char>,
    range: (usize, usize),
)
    requires
        range.0 == vstd::utf8::encode_utf8(before).len(),
        range.1 == vstd::utf8::encode_utf8(before).len() + vstd::utf8::encode_utf8(part).len(),
    ensures
        encloses(before + part + after, range),
        enclosed(before + part + after, range) == vstd::utf8::encode_utf8(part),
{
    lemma_encode_add(before, part);
    lemma_encode_add(before + part, after);
    lemma_boundary_between(before + part, after);
    lemma_boundary_between(before, part + after);
    assert(before + (part + after) =~= before + part + after);
    assert(enclosed(before + part + after, range) =~= vstd::utf8::encode_utf8(part));
}

} // verus!
