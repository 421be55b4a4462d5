//! Digests of files and directory trees.

use crate::encoding::{be_bytes, lemma_be_bytes_len, lemma_be_round_trip, pow256, push_be_u64};
use crate::order::{OrdMap, OrderKey, Standing, lemma_utf8_injective, listing_of, text_lt, text_standing};
use crate::text::texts;
use sha2::{Digest, Sha256};
use vstd::prelude::*;
use vstd::string::*;
use vstd::utf8::encode_utf8;

verus! {

/// The SHA-256 digest of bytes.
pub uninterp spec fn sha256_of(data: Seq<u8>) -> Seq<u8>;

/// `sha2::Sha256::digest`: the thirty-two bytes of the digest.
#[verifier::external_body]
pub(crate) fn sha256(data: &Vec<u8>) -> (r: Vec<u8>)
    ensures
        r@ == sha256_of(data@),
        r@.len() == 32,
{
    Sha256::digest(data).to_vec()
}

/// The names on the way to a file below a directory.
pub struct Names {
    pub names: Vec<String>,
}

/// Lists of names in the order of their first difference.
pub open spec fn names_lt(a: Seq<Seq<char>>, b: Seq<Seq<char>>) -> bool
    decreases a.len(),
{
    if b.len() == 0 {
        false
    } else if a.len() == 0 {
        true
    } else if a[0] != b[0] {
        text_lt(a[0], b[0])
    } else {
        names_lt(a.drop_first(), b.drop_first())
    }
}

proof fn lemma_names_irreflexive(a: Seq<Seq<char>>)
    ensures
        !names_lt(a, a),
    decreases a.len(),
{
    if a.len() > 0 {
        lemma_names_irreflexive(a.drop_first());
    }
}

proof fn lemma_names_transitive(a: Seq<Seq<char>>, b: Seq<Seq<char>>, c: Seq<Seq<char>>)
    requires
        names_lt(a, b),
        names_lt(b, c),
    ensures
        names_lt(a, c),
    decreases a.len(),
{
    if a.len() > 0 {
        if a[0] == b[0] && b[0] == c[0] {
            lemma_names_transitive(a.drop_first(), b.drop_first(), c.drop_first());
        } else if a[0] != b[0] && b[0] != c[0] {
            String::lt_transitive(a[0], b[0], c[0]);
            String::lt_irreflexive(a[0]);
        }
    }
}

proof fn lemma_names_total(a: Seq<Seq<char>>, b: Seq<Seq<char>>)
    ensures
        a == b || names_lt(a, b) || names_lt(b, a),
    decreases a.len(),
{
    if a.len() == 0 {
        if b.len() == 0 {
            assert(a =~= b);
        }
    } else if b.len() > 0 {
        if a[0] == b[0] {
            lemma_names_total(a.drop_first(), b.drop_first());
            if a.drop_first() == b.drop_first() {
                assert(a =~= seq![a[0]] + a.drop_first());
                assert(b =~= seq![b[0]] + b.drop_first());
            }
        } else {
            String::lt_total(a[0], b[0]);
        }
    }
}

proof fn lemma_names_skip(a: Seq<Seq<char>>, b: Seq<Seq<char>>, i: int)
    requires
        0 <= i <= a.len(),
        i <= b.len(),
        forall|j: int| 0 <= j < i ==> a[j] == b[j],
    ensures
        names_lt(a, b) == names_lt(a.skip(i), b.skip(i)),
    decreases i,
{
    if i == 0 {
        assert(a.skip(0) =~= a);
        assert(b.skip(0) =~= b);
    } else {
        lemma_names_skip(a, b, i - 1);
        let x = a.skip(i - 1);
        let y = b.skip(i - 1);
        assert(x[0] == a[i - 1]);
        assert(y[0] == b[i - 1]);
        assert(x.drop_first() =~= a.skip(i));
        assert(y.drop_first() =~= b.skip(i));
    }
}

impl OrderKey for Names {
    type V = Seq<Seq<char>>;

    open spec fn kv(&self) -> Seq<Seq<char>> {
        texts(self.names@)
    }

    open spec fn kless(a: Seq<Seq<char>>, b: Seq<Seq<char>>) -> bool {
        names_lt(a, b)
    }

    proof fn lt_irreflexive(a: Seq<Seq<char>>) {
        lemma_names_irreflexive(a);
    }

    proof fn lt_transitive(a: Seq<Seq<char>>, b: Seq<Seq<char>>, c: Seq<Seq<char>>) {
        lemma_names_transitive(a, b, c);
    }

    proof fn lt_total(a: Seq<Seq<char>>, b: Seq<Seq<char>>) {
        lemma_names_total(a, b);
    }

    fn standing(&self, other: &Names) -> (r: Standing) {
        let ghost a = texts(self.names@);
        let ghost b = texts(other.names@);
        let mut i: usize = 0;
        while i < self.names.len() && i < other.names.len()
            invariant
                i <= a.len() == self.names@.len(),
                i <= b.len() == other.names@.len(),
                a == texts(self.names@),
                b == texts(other.names@),
                forall|j: int| 0 <= j < i ==> a[j] == b[j],
            decreases a.len() - i,
        {
            let s = text_standing(self.names[i].as_str(), other.names[i].as_str());
            assert(a[i as int] == self.names@[i as int]@ && b[i as int] == other.names@[i as int]@);
            match s {
                Standing::Same => {},
                _ => {
                    proof {
                        lemma_names_skip(a, b, i as int);
                        lemma_names_skip(b, a, i as int);
                        assert(a.skip(i as int)[0] == a[i as int]);
                        assert(b.skip(i as int)[0] == b[i as int]);
                        String::lt_irreflexive(a[i as int]);
                    }
                    return s;
                },
            }
            i = i + 1;
        }
        proof {
            lemma_names_skip(a, b, i as int);
            lemma_names_skip(b, a, i as int);
            lemma_names_irreflexive(a);
        }
        if i < other.names.len() {
            assert(b.skip(i as int).len() > 0);
            assert(a.skip(i as int).len() == 0);
            Standing::Below
        } else if i < self.names.len() {
            assert(a.skip(i as int).len() > 0);
            assert(b.skip(i as int).len() == 0);
            Standing::Above
        } else {
            assert(a =~= b);
            Standing::Same
        }
    }
}

/// What stands at a path that is to be digested.
pub enum Tree {
    File(Vec<u8>),
    /// Every file below a directory, with its contents.
    Directory(OrdMap<Names, Vec<u8>>),
    Symlink,
    Other,
    /// It could not be read; the text is the system's message.
    Unreadable(String),
}

/// A number in eight bytes, least significant first.
pub open spec fn le_bytes(n: nat) -> Seq<u8> {
    be_bytes(n, 8).reverse()
}

fn push_le(out: &mut Vec<u8>, n: u64)
    ensures
        final(out)@ == old(out)@ + le_bytes(n as nat),
{
    let mut big: Vec<u8> = Vec::new();
    push_be_u64(&mut big, n);
    assert(big@ =~= be_bytes(n as nat, 8));
    proof {
        lemma_be_bytes_len(n as nat, 8);
    }
    let ghost start = out@;
    let ghost le = le_bytes(n as nat);
    let mut i: usize = 0;
    assert(le.take(0) =~= Seq::<u8>::empty());
    while i < 8
        invariant
            i <= 8,
            big@.len() == 8,
            le == big@.reverse(),
            out@ == start + le.take(i as int),
        decreases 8 - i,
    {
        out.push(big[7 - i]);
        assert(le.take(i as int + 1) =~= le.take(i as int).push(le[i as int]));
        i = i + 1;
    }
    assert(le.take(8) =~= le);
}

fn push_all(out: &mut Vec<u8>, more: &[u8])
    ensures
        final(out)@ == old(out)@ + more@,
{
    let ghost start = out@;
    let mut i: usize = 0;
    assert(more@.take(0) =~= Seq::<u8>::empty());
    while i < more.len()
        invariant
            i <= more@.len(),
            out@ == start + more@.take(i as int),
        decreases more@.len() - i,
    {
        out.push(more[i]);
        assert(more@.take(i as int + 1) =~= more@.take(i as int).push(more@[i as int]));
        i = i + 1;
    }
    assert(more@.take(i as int) =~= more@);
}

/// One file of a snapshot: a mark, its name and its contents, each with its length before it.
pub open spec fn frame(name: Seq<char>, contents: Seq<u8>) -> Seq<u8> {
    seq![102u8, 105, 108, 101, 0] + le_bytes(encode_utf8(name).len()) + encode_utf8(name)
        + le_bytes(contents.len()) + contents
}

/// A snapshot as the bytes that its digest is taken of.
pub open spec fn framed(files: Seq<(Seq<char>, Seq<u8>)>) -> Seq<u8>
    decreases files.len(),
{
    if files.len() == 0 {
        Seq::empty()
    } else {
        framed(files.drop_last()) + frame(files.last().0, files.last().1)
    }
}

fn push_frame(out: &mut Vec<u8>, name: &str, contents: &Vec<u8>)
    ensures
        final(out)@ == old(out)@ + frame(name@, contents@),
{
    let ghost start = out@;
    out.push(102);
    out.push(105);
    out.push(108);
    out.push(101);
    out.push(0);
    let bytes = name.as_bytes();
    push_le(out, bytes.len() as u64);
    push_all(out, bytes);
    push_le(out, contents.len() as u64);
    push_all(out, contents.as_slice());
    assert(out@ =~= start + frame(name@, contents@));
}

/// Names with slashes between them.
pub open spec fn slashed(names: Seq<Seq<char>>) -> Seq<char>
    decreases names.len(),
{
    if names.len() == 0 {
        Seq::empty()
    } else if names.len() == 1 {
        names[0]
    } else {
        slashed(names.drop_last()).push('/') + names.last()
    }
}

fn join_names(names: &Vec<String>) -> (r: String)
    ensures
        r@ == slashed(texts(names@)),
{
    let ghost all = texts(names@);
    let mut out = String::new();
    let mut i: usize = 0;
    assert(all.take(0) =~= Seq::<Seq<char>>::empty());
    assert(out@ =~= slashed(all.take(0)));
    while i < names.len()
        invariant
            i <= names@.len(),
            all == texts(names@),
            out@ == slashed(all.take(i as int)),
        decreases names@.len() - i,
    {
        let ghost before = out@;
        if i > 0 {
            out.push('/');
        }
        out.append(names[i].as_str());
        proof {
            let t = all.take(i as int + 1);
            assert(t.drop_last() =~= all.take(i as int));
            assert(t.last() == names@[i as int]@);
            if i == 0 {
                assert(out@ =~= t[0]);
            }
        }
        i = i + 1;
    }
    assert(all.take(i as int) =~= all);
    out
}

/// The files of a tree in the order of their names.
pub open spec fn files_of(tree: OrdMap<Names, Vec<u8>>) -> Seq<(Seq<char>, Seq<u8>)> {
    let keys = listing_of::<Names>(tree@.dom());
    keys.map_values(|k: Seq<Seq<char>>| (slashed(k), tree@[k]@))
}

/// The bytes that stand for a tree, or why it has no digest.
pub open spec fn snapshot(tree: Tree) -> Result<Seq<u8>, Seq<char>> {
    match tree {
        Tree::File(contents) => Ok(framed(seq![("."@, contents@)])),
        Tree::Directory(files) => Ok(framed(files_of(files))),
        Tree::Symlink => Err("symlinks are not accepted in attested inputs"@),
        Tree::Other => Err("path is neither a regular file nor a directory"@),
        Tree::Unreadable(m) => Err(m@),
    }
}

/// Bytes as pairs of lower-case hexadecimal digits.
pub open spec fn hex_of(data: Seq<u8>) -> Seq<char>
    decreases data.len(),
{
    if data.len() == 0 {
        Seq::empty()
    } else {
        hex_of(data.drop_last()) + seq![
            hex_digit((data.last() / 16) as nat),
            hex_digit((data.last() % 16) as nat),
        ]
    }
}

pub open spec fn hex_digit(n: nat) -> char {
    if n < 10 {
        (48 + n) as char
    } else {
        (87 + n) as char
    }
}

fn digit_for(n: u8) -> (r: char)
    requires
        n < 16,
    ensures
        r == hex_digit(n as nat),
{
    if n < 10 {
        (48 + n) as char
    } else {
        (87 + n) as char
    }
}

pub fn hex(data: &Vec<u8>) -> (r: String)
    ensures
        r@ == hex_of(data@),
{
    let mut out = String::new();
    let mut i: usize = 0;
    assert(data@.take(0) =~= Seq::<u8>::empty());
    assert(out@ =~= hex_of(data@.take(0)));
    while i < data.len()
        invariant
            i <= data@.len(),
            out@ == hex_of(data@.take(i as int)),
        decreases data@.len() - i,
    {
        let ghost before = out@;
        out.push(digit_for(data[i] / 16));
        out.push(digit_for(data[i] % 16));
        proof {
            let t = data@.take(i as int + 1);
            assert(t.drop_last() =~= data@.take(i as int));
            assert(t.last() == data@[i as int]);
            assert(out@ =~= hex_of(t));
        }
        i = i + 1;
    }
    assert(data@.take(i as int) =~= data@);
    out
}

/// The digest that a binding states for a tree.
pub open spec fn digest_of(tree: Tree) -> Result<Seq<char>, Seq<char>> {
    match snapshot(tree) {
        Ok(data) => Ok(hex_of(sha256_of(data))),
        Err(m) => Err(m),
    }
}

/// The SHA-256 that bindings use: over a sorted snapshot with names and contents.
pub fn digest_tree(tree: &Tree) -> (r: Result<String, String>)
    ensures
        match r {
            Ok(d) => digest_of(*tree) == Ok::<Seq<char>, Seq<char>>(d@),
            Err(m) => digest_of(*tree) == Err::<Seq<char>, Seq<char>>(m@),
        },
{
    let mut data: Vec<u8> = Vec::new();
    match tree {
        Tree::File(contents) => {
            push_frame(&mut data, ".", contents);
            proof {
                let one = seq![("."@, contents@)];
                assert(one.drop_last() =~= Seq::<(Seq<char>, Seq<u8>)>::empty());
                assert(framed(one.drop_last()) =~= Seq::<u8>::empty());
                assert(data@ =~= framed(one));
            }
        },
        Tree::Directory(files) => {
            let n = files.len();
            let ghost all = files_of(*files);
            let mut i: usize = 0;
            assert(all.take(0) =~= Seq::<(Seq<char>, Seq<u8>)>::empty());
            assert(data@ =~= framed(all.take(0)));
            while i < n
                invariant
                    i <= n,
                    n == files.listing().len(),
                    n == files.values().len(),
                    listing_of::<Names>(files@.dom()) == files.listing(),
                    forall|i: int|
                        0 <= i < n ==> files@.contains_key(#[trigger] files.listing()[i])
                            && files@[files.listing()[i]] == files.values()[i],
                    all == files_of(*files),
                    data@ == framed(all.take(i as int)),
                decreases n - i,
            {
                let name = join_names(&files.key_at(i).names);
                let contents = files.value_at(i);
                proof {
                    let t = all.take(i as int + 1);
                    assert(files@.contains_key(files.listing()[i as int]));
                    assert(all[i as int] == (name@, contents@));
                    assert(t.drop_last() =~= all.take(i as int));
                    assert(t.last() == all[i as int]);
                }
                push_frame(&mut data, name.as_str(), contents);
                i = i + 1;
            }
            assert(all.take(n as int) =~= all);
        },
        Tree::Symlink => {
            return Err("symlinks are not accepted in attested inputs".to_owned());
        },
        Tree::Other => {
            return Err("path is neither a regular file nor a directory".to_owned());
        },
        Tree::Unreadable(m) => {
            return Err(m.clone());
        },
    }
    Ok(hex(&sha256(&data)))
}

/// What stands in a directory under one name.
#[derive(Clone, Copy, PartialEq, Eq, Structural, Debug)]
pub enum EntryKind {
    File,
    Directory,
    Symlink,
    Other,
}

/// What a snapshot does with an entry: take a file, go into a directory, refuse the rest.
pub open spec fn entry_admitted(kind: EntryKind, path: Seq<char>) -> Result<bool, Seq<char>> {
    match kind {
        EntryKind::File => Ok(false),
        EntryKind::Directory => Ok(true),
        EntryKind::Symlink => Err("symlink "@ + path + " is not accepted"@),
        EntryKind::Other => Err(path + " is not a regular file"@),
    }
}

/// Whether to go into an entry (`true`) or to take it (`false`).
pub fn admit_entry(kind: EntryKind, path: &str) -> (r: Result<bool, String>)
    ensures
        match r {
            Ok(b) => entry_admitted(kind, path@) == Ok::<bool, Seq<char>>(b),
            Err(m) => entry_admitted(kind, path@) == Err::<bool, Seq<char>>(m@),
        },
{
    match kind {
        EntryKind::File => Ok(false),
        EntryKind::Directory => Ok(true),
        EntryKind::Symlink => Err("symlink ".to_owned().concat(path).concat(" is not accepted")),
        EntryKind::Other => Err(path.to_owned().concat(" is not a regular file")),
    }
}

proof fn lemma_le_injective(a: nat, b: nat)
    requires
        a < 0x1_0000_0000_0000_0000,
        b < 0x1_0000_0000_0000_0000,
        le_bytes(a) == le_bytes(b),
    ensures
        a == b,
{
    reveal_with_fuel(pow256, 9);
    lemma_be_round_trip(a, 8);
    lemma_be_round_trip(b, 8);
    assert(be_bytes(a, 8) =~= le_bytes(a).reverse());
    assert(be_bytes(b, 8) =~= le_bytes(b).reverse());
}

/// A file whose lengths fit their eight bytes.
pub open spec fn file_fits(file: (Seq<char>, Seq<u8>)) -> bool {
    encode_utf8(file.0).len() < 0x1_0000_0000_0000_0000 && file.1.len() < 0x1_0000_0000_0000_0000
}

pub open spec fn framed_from_front(files: Seq<(Seq<char>, Seq<u8>)>) -> Seq<u8>
    decreases files.len(),
{
    if files.len() == 0 {
        Seq::empty()
    } else {
        frame(files[0].0, files[0].1) + framed_from_front(files.drop_first())
    }
}

proof fn lemma_framed_either_way(files: Seq<(Seq<char>, Seq<u8>)>)
    ensures
        framed(files) == framed_from_front(files),
    decreases files.len(),
{
    if files.len() > 0 {
        let l = files.drop_last();
        let f = files.drop_first();
        lemma_framed_either_way(l);
        if l.len() == 0 {
            assert(f =~= Seq::<(Seq<char>, Seq<u8>)>::empty());
            assert(framed(l) =~= Seq::<u8>::empty());
            assert(framed_from_front(f) =~= Seq::<u8>::empty());
            assert(framed(files) =~= framed_from_front(files));
        } else {
            lemma_framed_either_way(f);
            assert(l[0] == files[0]);
            assert(f.last() == files.last());
            assert(l.drop_first() =~= f.drop_last());
            lemma_framed_either_way(f.drop_last());
            let head = frame(files[0].0, files[0].1);
            let tail = frame(files.last().0, files.last().1);
            let middle = framed(f.drop_last());
            assert(framed(l) == head + middle);
            assert(framed(f) == middle + tail);
            assert(framed(files) =~= framed_from_front(files));
        }
    }
}

proof fn lemma_frame_prefix(
    a: (Seq<char>, Seq<u8>),
    x: Seq<u8>,
    b: (Seq<char>, Seq<u8>),
    y: Seq<u8>,
)
    requires
        file_fits(a),
        file_fits(b),
        frame(a.0, a.1) + x == frame(b.0, b.1) + y,
    ensures
        a == b,
        x == y,
{
    let s = frame(a.0, a.1) + x;
    let t = frame(b.0, b.1) + y;
    let na = encode_utf8(a.0).len();
    let nb = encode_utf8(b.0).len();
    lemma_be_bytes_len(na, 8);
    lemma_be_bytes_len(nb, 8);
    lemma_be_bytes_len(a.1.len(), 8);
    lemma_be_bytes_len(b.1.len(), 8);
    assert(s.subrange(5, 13) =~= le_bytes(na));
    assert(t.subrange(5, 13) =~= le_bytes(nb));
    lemma_le_injective(na, nb);
    let p = (13 + na) as int;
    assert(s.subrange(13, p as int) =~= encode_utf8(a.0));
    assert(t.subrange(13, p as int) =~= encode_utf8(b.0));
    lemma_utf8_injective(a.0, b.0);
    assert(s.subrange(p as int, p + 8) =~= le_bytes(a.1.len()));
    assert(t.subrange(p as int, p + 8) =~= le_bytes(b.1.len()));
    lemma_le_injective(a.1.len(), b.1.len());
    let q = (p + 8 + a.1.len()) as int;
    assert(s.subrange(p + 8, q as int) =~= a.1);
    assert(t.subrange(p + 8, q as int) =~= b.1);
    assert(s.skip(q as int) =~= x);
    assert(t.skip(q as int) =~= y);
}

/// A digest binds names and contents: two snapshots with the same bytes hold the same files.
pub proof fn law_snapshots_are_injective(
    a: Seq<(Seq<char>, Seq<u8>)>,
    b: Seq<(Seq<char>, Seq<u8>)>,
)
    requires
        framed(a) == framed(b),
        forall|i: int| 0 <= i < a.len() ==> file_fits(#[trigger] a[i]),
        forall|i: int| 0 <= i < b.len() ==> file_fits(#[trigger] b[i]),
    ensures
        a == b,
    decreases a.len(),
{
    lemma_framed_either_way(a);
    lemma_framed_either_way(b);
    if a.len() == 0 || b.len() == 0 {
        if a.len() > 0 {
            assert(framed_from_front(a)[0] == 102);
            assert(framed_from_front(a).len() > 0);
        }
        if b.len() > 0 {
            assert(framed_from_front(b)[0] == 102);
            assert(framed_from_front(b).len() > 0);
        }
        assert(framed_from_front(Seq::<(Seq<char>, Seq<u8>)>::empty()).len() == 0);
        if a.len() == 0 {
            assert(a =~= Seq::<(Seq<char>, Seq<u8>)>::empty());
        }
        if b.len() == 0 {
            assert(b =~= Seq::<(Seq<char>, Seq<u8>)>::empty());
        }
        assert(a =~= b);
    } else {
        let x = a.drop_first();
        let y = b.drop_first();
        lemma_frame_prefix(a[0], framed_from_front(x), b[0], framed_from_front(y));
        lemma_framed_either_way(x);
        lemma_framed_either_way(y);
        law_snapshots_are_injective(x, y);
        assert(a =~= seq![a[0]] + x);
        assert(b =~= seq![b[0]] + y);
    }
}

} // verus!
