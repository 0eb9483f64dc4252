//! An order-sensitive SHA-256 fingerprint of a list of files: the digest of
//! the files' own digests, written in lowercase hex.

use vstd::prelude::*;
use vstd::string::StringExecFns;
use sha2::Digest;
use crate::reader::{covers, failed_at, is_order_of, lemma_order_picks_result, result_of};
use crate::reader::strict_order;
use crate::reader::{Failure, ReadResult, ReadStatus};

verus! {

/// The SHA-256 digest of a message, as the `sha2` crate computes it.
pub uninterp spec fn sha256(message: Seq<u8>) -> Seq<u8>;

/// `sha2::Sha256::digest`: the digest of the whole message, which depends on
/// the message alone and is 32 bytes long.
#[verifier::external_body]
fn sha256_digest(message: &[u8]) -> (digest: Vec<u8>)
    ensures
        digest@ == sha256(message@),
        digest@.len() == 32,
{
    sha2::Sha256::digest(message).to_vec()
}

/// The lowercase hex digit for a value below sixteen.
pub open spec fn hex_digit(n: int) -> char {
    if n == 0 {
        '0'
    } else if n == 1 {
        '1'
    } else if n == 2 {
        '2'
    } else if n == 3 {
        '3'
    } else if n == 4 {
        '4'
    } else if n == 5 {
        '5'
    } else if n == 6 {
        '6'
    } else if n == 7 {
        '7'
    } else if n == 8 {
        '8'
    } else if n == 9 {
        '9'
    } else if n == 10 {
        'a'
    } else if n == 11 {
        'b'
    } else if n == 12 {
        'c'
    } else if n == 13 {
        'd'
    } else if n == 14 {
        'e'
    } else {
        'f'
    }
}

/// Whether a character is one of `0` to `9` or `a` to `f`.
pub open spec fn is_lower_hex(c: char) -> bool {
    ('0' <= c && c <= '9') || ('a' <= c && c <= 'f')
}

/// Two lowercase hex digits per byte, the high half first.
pub open spec fn hex_of(bytes: Seq<u8>) -> Seq<char> {
    Seq::new(
        2 * bytes.len(),
        |i: int|
            if i % 2 == 0 {
                hex_digit(bytes[i / 2] as int / 16)
            } else {
                hex_digit(bytes[i / 2] as int % 16)
            },
    )
}

/// All the sequences of a list, one after the other.
pub open spec fn joined(parts: Seq<Seq<u8>>) -> Seq<u8>
    decreases parts.len(),
{
    if parts.len() == 0 {
        Seq::empty()
    } else {
        joined(parts.drop_last()) + parts.last()
    }
}

/// The views of a list of byte vectors.
pub open spec fn byte_views(parts: Seq<Vec<u8>>) -> Seq<Seq<u8>> {
    Seq::new(parts.len(), |i: int| parts[i]@)
}

/// The digest of every content of a list.
pub open spec fn digests_of(contents: Seq<Seq<u8>>) -> Seq<Seq<u8>> {
    Seq::new(contents.len(), |i: int| sha256(contents[i]))
}

/// The fingerprint that belongs to a list of per-file digests.
pub open spec fn fingerprint_of_digests(digests: Seq<Seq<u8>>) -> Seq<char> {
    hex_of(sha256(joined(digests)))
}

/// The fingerprint of a list of file contents.
pub open spec fn fingerprint_of(contents: Seq<Seq<u8>>) -> Seq<char> {
    fingerprint_of_digests(digests_of(contents))
}

/// The hex digit for a value below sixteen, as a string of one character.
fn hex_digit_str(n: u8) -> (digit: &'static str)
    requires
        n < 16,
    ensures
        digit@ == seq![hex_digit(n as int)],
{
    proof {
        reveal_strlit("0");
        reveal_strlit("1");
        reveal_strlit("2");
        reveal_strlit("3");
        reveal_strlit("4");
        reveal_strlit("5");
        reveal_strlit("6");
        reveal_strlit("7");
        reveal_strlit("8");
        reveal_strlit("9");
        reveal_strlit("a");
        reveal_strlit("b");
        reveal_strlit("c");
        reveal_strlit("d");
        reveal_strlit("e");
        reveal_strlit("f");
    }
    let digit = if n == 0 {
        "0"
    } else if n == 1 {
        "1"
    } else if n == 2 {
        "2"
    } else if n == 3 {
        "3"
    } else if n == 4 {
        "4"
    } else if n == 5 {
        "5"
    } else if n == 6 {
        "6"
    } else if n == 7 {
        "7"
    } else if n == 8 {
        "8"
    } else if n == 9 {
        "9"
    } else if n == 10 {
        "a"
    } else if n == 11 {
        "b"
    } else if n == 12 {
        "c"
    } else if n == 13 {
        "d"
    } else if n == 14 {
        "e"
    } else {
        "f"
    };
    assert(digit@ =~= seq![hex_digit(n as int)]);
    digit
}

/// Writes bytes in lowercase hex.
pub fn hex_encode(bytes: &[u8]) -> (text: String)
    ensures
        text@ == hex_of(bytes@),
        text@.len() == 2 * bytes@.len(),
        forall|i: int| 0 <= i < text@.len() ==> is_lower_hex(#[trigger] text@[i]),
{
    let mut text = String::new();
    let mut i: usize = 0;
    while i < bytes.len()
        invariant
            i <= bytes@.len(),
            text@.len() == 2 * i,
            forall|j: int| 0 <= j < 2 * i ==> #[trigger] text@[j] == hex_of(bytes@)[j],
        decreases bytes@.len() - i,
    {
        let byte: u8 = bytes[i];
        text.append(hex_digit_str(byte / 16));
        text.append(hex_digit_str(byte % 16));
        i += 1;
    }
    assert(text@ =~= hex_of(bytes@));
    assert forall|k: int| 0 <= k < text@.len() implies is_lower_hex(#[trigger] text@[k]) by {
        let b = bytes@[k / 2] as int;
        if k % 2 == 0 {
            assert(text@[k] == hex_digit(b / 16));
        } else {
            assert(text@[k] == hex_digit(b % 16));
        }
    }
    text
}

/// The joined list grows by one part at a time.
pub proof fn lemma_joined_step(parts: Seq<Seq<u8>>, i: int)
    requires
        0 <= i < parts.len(),
    ensures
        joined(parts.take(i + 1)) == joined(parts.take(i)) + parts[i],
{
    assert(parts.take(i + 1).drop_last() =~= parts.take(i));
}

/// The digest of one file's content.
pub fn file_digest(content: &[u8]) -> (digest: Vec<u8>)
    ensures
        digest@ == sha256(content@),
        digest@.len() == 32,
{
    sha256_digest(content)
}

/// Appends a run of bytes to a buffer.
fn append_bytes(buffer: &mut Vec<u8>, part: &[u8])
    ensures
        final(buffer)@ == old(buffer)@ + part@,
{
    let ghost before = buffer@;
    let mut k: usize = 0;
    while k < part.len()
        invariant
            k <= part@.len(),
            buffer@ == before + part@.take(k as int),
        decreases part@.len() - k,
    {
        buffer.push(part[k]);
        assert(buffer@ =~= before + part@.take(k + 1));
        k += 1;
    }
    assert(part@.take(part@.len() as int) =~= part@);
}

/// Puts the per-file digests one after the other, in the order given.
pub fn combine_digests(digests: &Vec<Vec<u8>>) -> (combined: Vec<u8>)
    ensures
        combined@ == joined(byte_views(digests@)),
{
    let mut combined: Vec<u8> = Vec::new();
    let mut i: usize = 0;
    while i < digests.len()
        invariant
            i <= digests@.len(),
            combined@ == joined(byte_views(digests@).take(i as int)),
        decreases digests@.len() - i,
    {
        proof {
            lemma_joined_step(byte_views(digests@), i as int);
        }
        append_bytes(&mut combined, digests[i].as_slice());
        i += 1;
    }
    assert(byte_views(digests@).take(digests@.len() as int) =~= byte_views(digests@));
    combined
}

/// The fingerprint of a list of files, from their digests in list order:
/// the digest of the joined digests, in lowercase hex.
pub fn fingerprint(digests: &Vec<Vec<u8>>) -> (text: String)
    ensures
        text@ == fingerprint_of_digests(byte_views(digests@)),
        text@.len() == 64,
        forall|i: int| 0 <= i < 64 ==> is_lower_hex(#[trigger] text@[i]),
{
    let combined = combine_digests(digests);
    let digest = sha256_digest(combined.as_slice());
    hex_encode(digest.as_slice())
}

/// The fingerprint of a list of files, from their contents in list order.
pub fn hash_contents(contents: &Vec<Vec<u8>>) -> (text: String)
    ensures
        text@ == fingerprint_of(byte_views(contents@)),
        text@.len() == 64,
        forall|i: int| 0 <= i < 64 ==> is_lower_hex(#[trigger] text@[i]),
{
    let mut digests: Vec<Vec<u8>> = Vec::new();
    let mut i: usize = 0;
    while i < contents.len()
        invariant
            i <= contents@.len(),
            digests@.len() == i,
            forall|j: int| 0 <= j < i ==> (#[trigger] digests@[j])@ == sha256(contents@[j]@),
        decreases contents@.len() - i,
    {
        let digest = file_digest(contents[i].as_slice());
        digests.push(digest);
        i += 1;
    }
    assert(byte_views(digests@) =~= digests_of(byte_views(contents@)));
    fingerprint(&digests)
}

/// The payloads of the results of `n` files, in the order of the list.
pub open spec fn payloads(reads: Seq<ReadResult<Vec<u8>>>, n: nat) -> Seq<Seq<u8>> {
    Seq::new(n, |i: int| result_of(reads, i).payload@)
}

/// Fingerprints a list of files from the gathered results of reading them,
/// in whatever order those arrived; each payload is the raw content of its
/// file. There is a fingerprint only if every file was read: otherwise the
/// first file of the list that was not is reported.
pub fn hash_files(files: &Vec<String>, reads: &Vec<ReadResult<Vec<u8>>>) -> (r: Result<
    String,
    Failure,
>)
    ensures
        match r {
            Ok(text) => {
                &&& covers(reads@, files@.len())
                &&& forall|i: int| 0 <= i < files@.len() ==> !failed_at(reads@, i)
                &&& text@ == fingerprint_of(payloads(reads@, files@.len()))
                &&& text@.len() == 64
                &&& forall|i: int| 0 <= i < 64 ==> is_lower_hex(#[trigger] text@[i])
            },
            Err(Failure::Incomplete) => !covers(reads@, files@.len()),
            Err(Failure::Unreadable { index, path, cause }) => {
                &&& covers(reads@, files@.len())
                &&& index < files@.len()
                &&& forall|i: int| 0 <= i < index ==> !failed_at(reads@, i)
                &&& path@ == files@[index as int]@
                &&& result_of(reads@, index as int).status == ReadStatus::Failed(cause)
            },
        },
{
    let order = match strict_order(files, reads) {
        Ok(order) => order,
        Err(failure) => {
            return Err(failure);
        },
    };
    let ghost contents = payloads(reads@, files@.len());
    let mut digests: Vec<Vec<u8>> = Vec::new();
    let mut i: usize = 0;
    while i < files.len()
        invariant
            i <= files@.len(),
            covers(reads@, files@.len()),
            is_order_of(order@, reads@),
            contents == payloads(reads@, files@.len()),
            digests@.len() == i,
            forall|j: int| 0 <= j < i ==> (#[trigger] digests@[j])@ == sha256(contents[j]),
        decreases files@.len() - i,
    {
        proof {
            lemma_order_picks_result(order@, reads@, i as int);
        }
        let digest = file_digest(reads[order[i]].payload.as_slice());
        digests.push(digest);
        i += 1;
    }
    assert(byte_views(digests@) =~= digests_of(contents));
    Ok(fingerprint(&digests))
}

/// Fingerprints a list of files as `hash_files` does, from results whose
/// payload is already the digest of the file's content.
pub fn hash_digests(files: &Vec<String>, reads: &Vec<ReadResult<Vec<u8>>>) -> (r: Result<
    String,
    Failure,
>)
    ensures
        match r {
            Ok(text) => {
                &&& covers(reads@, files@.len())
                &&& forall|i: int| 0 <= i < files@.len() ==> !failed_at(reads@, i)
                &&& text@ == fingerprint_of_digests(payloads(reads@, files@.len()))
                &&& text@.len() == 64
                &&& forall|i: int| 0 <= i < 64 ==> is_lower_hex(#[trigger] text@[i])
            },
            Err(Failure::Incomplete) => !covers(reads@, files@.len()),
            Err(Failure::Unreadable { index, path, cause }) => {
                &&& covers(reads@, files@.len())
                &&& index < files@.len()
                &&& forall|i: int| 0 <= i < index ==> !failed_at(reads@, i)
                &&& path@ == files@[index as int]@
                &&& result_of(reads@, index as int).status == ReadStatus::Failed(cause)
            },
        },
{
    let order = match strict_order(files, reads) {
        Ok(order) => order,
        Err(failure) => {
            return Err(failure);
        },
    };
    let ghost parts = payloads(reads@, files@.len());
    let mut combined: Vec<u8> = Vec::new();
    let mut i: usize = 0;
    while i < files.len()
        invariant
            i <= files@.len(),
            covers(reads@, files@.len()),
            is_order_of(order@, reads@),
            parts == payloads(reads@, files@.len()),
            combined@ == joined(parts.take(i as int)),
        decreases files@.len() - i,
    {
        proof {
            lemma_order_picks_result(order@, reads@, i as int);
            lemma_joined_step(parts, i as int);
        }
        append_bytes(&mut combined, reads[order[i]].payload.as_slice());
        i += 1;
    }
    assert(parts.take(files@.len() as int) =~= parts);
    let digest = sha256_digest(combined.as_slice());
    Ok(hex_encode(digest.as_slice()))
}

/// The same contents in the same order give the same fingerprint.
pub proof fn lemma_fingerprint_repeatable(first: Seq<Seq<u8>>, second: Seq<Seq<u8>>)
    requires
        first.len() == second.len(),
        forall|i: int| 0 <= i < first.len() ==> first[i] == second[i],
    ensures
        fingerprint_of(first) == fingerprint_of(second),
{
    assert(first =~= second);
}

/// Bytes that are written the same in hex are the same bytes.
pub proof fn lemma_hex_injective(first: Seq<u8>, second: Seq<u8>)
    requires
        hex_of(first) == hex_of(second),
    ensures
        first == second,
{
    assert(hex_of(first).len() == 2 * first.len());
    assert(hex_of(second).len() == 2 * second.len());
    assert forall|i: int| 0 <= i < first.len() implies first[i] == second[i] by {
        let a = first[i] as int;
        let b = second[i] as int;
        assert(hex_of(first)[2 * i] == hex_digit(a / 16));
        assert(hex_of(second)[2 * i] == hex_digit(b / 16));
        assert(hex_of(first)[2 * i + 1] == hex_digit(a % 16));
        assert(hex_of(second)[2 * i + 1] == hex_digit(b % 16));
        assert(a / 16 == b / 16);
        assert(a % 16 == b % 16);
    }
    assert(first =~= second);
}

/// Digests of one length that join to the same bytes are the same digests
/// in the same order.
pub proof fn lemma_joined_injective(first: Seq<Seq<u8>>, second: Seq<Seq<u8>>, width: nat)
    requires
        width > 0,
        forall|i: int| 0 <= i < first.len() ==> (#[trigger] first[i]).len() == width,
        forall|i: int| 0 <= i < second.len() ==> (#[trigger] second[i]).len() == width,
        joined(first) == joined(second),
    ensures
        first == second,
    decreases first.len(),
{
    lemma_joined_len(first, width);
    lemma_joined_len(second, width);
    assert(first.len() == second.len()) by (nonlinear_arith)
        requires
            first.len() * width == second.len() * width,
            width > 0,
    ;
    if first.len() > 0 {
        let a = joined(first.drop_last());
        let b = joined(second.drop_last());
        lemma_joined_len(first.drop_last(), width);
        lemma_joined_len(second.drop_last(), width);
        let whole = joined(first);
        assert(whole.subrange(0, a.len() as int) =~= a);
        assert(whole.subrange(0, b.len() as int) =~= b);
        assert(whole.subrange(a.len() as int, whole.len() as int) =~= first.last());
        assert(whole.subrange(b.len() as int, whole.len() as int) =~= second.last());
        lemma_joined_injective(first.drop_last(), second.drop_last(), width);
        assert(first =~= first.drop_last().push(first.last()));
        assert(second =~= second.drop_last().push(second.last()));
    } else {
        assert(first =~= second);
    }
}

/// Parts of one length join to that length times their number.
pub proof fn lemma_joined_len(parts: Seq<Seq<u8>>, width: nat)
    requires
        forall|i: int| 0 <= i < parts.len() ==> (#[trigger] parts[i]).len() == width,
    ensures
        joined(parts).len() == parts.len() * width,
    decreases parts.len(),
{
    if parts.len() > 0 {
        lemma_joined_len(parts.drop_last(), width);
        assert(parts.len() * width == (parts.len() - 1) * width + width) by (nonlinear_arith);
    } else {
        assert(parts.len() * width == 0) by (nonlinear_arith)
            requires
                parts.len() == 0,
        ;
    }
}

/// Two different messages with the same SHA-256 digest.
pub open spec fn collide(first: Seq<u8>, second: Seq<u8>) -> bool {
    first != second && sha256(first) == sha256(second)
}

/// Every digest of the list has the length of a SHA-256 digest.
pub open spec fn digest_sized(digests: Seq<Seq<u8>>) -> bool {
    forall|i: int| 0 <= i < digests.len() ==> (#[trigger] digests[i]).len() == 32
}

/// Two lists of files whose per-file digests differ, in number, in value or
/// in order, have different fingerprints, unless SHA-256 collides on the
/// joined digests.
pub proof fn lemma_fingerprint_sensitive(first: Seq<Seq<u8>>, second: Seq<Seq<u8>>)
    requires
        digests_of(first) != digests_of(second),
        digest_sized(digests_of(first)),
        digest_sized(digests_of(second)),
        !collide(joined(digests_of(first)), joined(digests_of(second))),
    ensures
        fingerprint_of(first) != fingerprint_of(second),
{
    if joined(digests_of(first)) == joined(digests_of(second)) {
        lemma_joined_injective(digests_of(first), digests_of(second), 32);
    }
    if fingerprint_of(first) == fingerprint_of(second) {
        lemma_hex_injective(
            sha256(joined(digests_of(first))),
            sha256(joined(digests_of(second))),
        );
    }
}

/// A single file with another content has another fingerprint, unless
/// SHA-256 collides on the two contents or on their digests.
pub proof fn lemma_content_sensitive(first: Seq<u8>, second: Seq<u8>)
    requires
        first != second,
        !collide(first, second),
        !collide(sha256(first), sha256(second)),
    ensures
        fingerprint_of(seq![first]) != fingerprint_of(seq![second]),
{
    let a = digests_of(seq![first]);
    let b = digests_of(seq![second]);
    assert(a.drop_last() =~= Seq::<Seq<u8>>::empty());
    assert(b.drop_last() =~= Seq::<Seq<u8>>::empty());
    assert(joined(a.drop_last()) =~= Seq::<u8>::empty());
    assert(joined(b.drop_last()) =~= Seq::<u8>::empty());
    assert(joined(a) =~= sha256(first));
    assert(joined(b) =~= sha256(second));
    if fingerprint_of(seq![first]) == fingerprint_of(seq![second]) {
        lemma_hex_injective(sha256(joined(a)), sha256(joined(b)));
    }
}

/// Two files with different contents have another fingerprint in the other
/// order, unless SHA-256 collides on the two contents or on the joined
/// digests of the two orders.
pub proof fn lemma_order_sensitive(first: Seq<u8>, second: Seq<u8>)
    requires
        first != second,
        !collide(first, second),
        sha256(first).len() == 32,
        sha256(second).len() == 32,
        !collide(sha256(first) + sha256(second), sha256(second) + sha256(first)),
    ensures
        fingerprint_of(seq![first, second]) != fingerprint_of(seq![second, first]),
{
    let a = digests_of(seq![first, second]);
    let b = digests_of(seq![second, first]);
    assert(a[0] != b[0]);
    lemma_joined_step(a, 0);
    lemma_joined_step(a, 1);
    lemma_joined_step(b, 0);
    lemma_joined_step(b, 1);
    assert(a.take(2) =~= a);
    assert(b.take(2) =~= b);
    assert(joined(a.take(0)) =~= Seq::<u8>::empty());
    assert(joined(b.take(0)) =~= Seq::<u8>::empty());
    assert(joined(a) =~= sha256(first) + sha256(second));
    assert(joined(b) =~= sha256(second) + sha256(first));
    lemma_fingerprint_sensitive(seq![first, second], seq![second, first]);
}

/// The fingerprint of no files is the digest of no bytes, in hex.
pub proof fn lemma_empty_fingerprint()
    ensures
        fingerprint_of(Seq::empty()) == hex_of(sha256(Seq::empty())),
{
    assert(digests_of(Seq::empty()) =~= Seq::<Seq<u8>>::empty());
}

} // verus!
