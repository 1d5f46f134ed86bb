//! Chunk identifiers: 128-bit values with the textual form of a UUID.

use crate::error::FsError;
use vstd::arithmetic::power::pow;
use vstd::prelude::*;

verus! {

/// The lower-case hexadecimal digit for `n`.
pub open spec fn hex_digit(n: int) -> char {
    if n == 0 {
        '0'
    } else if n == 1 {
        '1'
    } else if n == 2 {
        '2'
    } else if n == 3 {
        '3'
    } else if n == 4 {
        '4'
    } else if n == 5 {
        '5'
    } else if n == 6 {
        '6'
    } else if n == 7 {
        '7'
    } else if n == 8 {
        '8'
    } else if n == 9 {
        '9'
    } else if n == 10 {
        'a'
    } else if n == 11 {
        'b'
    } else if n == 12 {
        'c'
    } else if n == 13 {
        'd'
    } else if n == 14 {
        'e'
    } else {
        'f'
    }
}

/// The `k`-th of the 32 hexadecimal digits of `id`, most significant first.
pub open spec fn id_digit(id: u128, k: int) -> int {
    (id as int / pow(16, (31 - k) as nat)) % 16
}

/// How many hyphens stand before position `i` of the textual form.
pub open spec fn hyphens_before(i: int) -> int {
    if i < 8 {
        0
    } else if i < 13 {
        1
    } else if i < 18 {
        2
    } else if i < 23 {
        3
    } else {
        4
    }
}

/// The textual form of an identifier: its 32 lower-case hexadecimal digits,
/// most significant first, in groups of 8, 4, 4, 4 and 12 with a hyphen
/// between neighbouring groups.
pub open spec fn id_text(id: u128) -> Seq<char> {
    Seq::new(
        36,
        |i: int|
            if i == 8 || i == 13 || i == 18 || i == 23 {
                '-'
            } else {
                hex_digit(id_digit(id, i - hyphens_before(i)))
            },
    )
}

/// The identifier that a text denotes, as `uuid::Uuid::parse_str` reads it,
/// or `None` where that function rejects the text.
pub uninterp spec fn id_parse(text: Seq<char>) -> Option<u128>;

/// The textual form holds neither a comma nor a line break.
pub proof fn lemma_id_text_plain(id: u128)
    ensures
        id_text(id).len() == 36,
        forall|i: int| 0 <= i < 36 ==> id_text(id)[i] != ',' && id_text(id)[i] != '\n',
{
}

#[verifier::external_type_specification]
#[verifier::external_body]
pub struct ExUuidError(uuid::Error);

/// A fresh random identifier, from `uuid::Uuid::new_v4` and
/// `Uuid::as_u128`. Nothing is claimed of the value. The call gives up only
/// where the operating system's random source fails.
#[verifier::external_body]
pub(crate) fn random_id() -> (id: u128) {
    uuid::Uuid::new_v4().as_u128()
}

/// The textual form of `id`, from `uuid::Uuid::from_u128` and the `Display`
/// of `Uuid`, which writes the hyphenated lower-case form. `parse_str`
/// reads every form that the crate writes, so it reads this text back as
/// `id`.
#[verifier::external_body]
pub(crate) fn uuid_to_string(id: u128) -> (text: String)
    ensures
        text@ == id_text(id),
        id_parse(text@) == Some(id),
{
    uuid::Uuid::from_u128(id).to_string()
}

/// `uuid::Uuid::parse_str`, with the identifier it finds given by
/// `Uuid::as_u128`.
#[verifier::external_body]
pub(crate) fn uuid_parse_str(text: &str) -> (r: Result<u128, uuid::Error>)
    ensures
        match r {
            Ok(id) => id_parse(text@) == Some(id),
            Err(_) => id_parse(text@) is None,
        },
{
    match uuid::Uuid::parse_str(text) {
        Ok(u) => Ok(u.as_u128()),
        Err(e) => Err(e),
    }
}

/// The textual form of a chunk identifier.
pub fn chunk_id_text(id: u128) -> (text: String)
    ensures
        text@ == id_text(id),
        id_parse(text@) == Some(id),
{
    uuid_to_string(id)
}

/// What a parsed identifier becomes: the identifier, or `InvalidInput`
/// where the text was rejected.
pub fn chunk_id_from(parsed: Result<u128, uuid::Error>) -> (r: Result<u128, FsError>)
    ensures
        match parsed {
            Ok(id) => r == Ok::<u128, FsError>(id),
            Err(_) => r == Err::<u128, FsError>(FsError::InvalidInput),
        },
{
    match parsed {
        Ok(id) => Ok(id),
        Err(_) => Err(FsError::InvalidInput),
    }
}

/// Reads a chunk identifier from its textual form.
pub fn parse_chunk_id(text: &str) -> (r: Result<u128, FsError>)
    ensures
        match id_parse(text@) {
            Some(id) => r == Ok::<u128, FsError>(id),
            None => r == Err::<u128, FsError>(FsError::InvalidInput),
        },
{
    chunk_id_from(uuid_parse_str(text))
}

/// The textual forms of a group of chunk identifiers.
pub open spec fn group_text(group: Seq<u128>) -> Seq<Seq<char>> {
    group.map_values(|c: u128| id_text(c))
}

/// The group that a list of texts denotes, if every text denotes an
/// identifier.
pub open spec fn parse_group(texts: Seq<Seq<char>>) -> Option<Seq<u128>>
    decreases texts.len(),
{
    if texts.len() == 0 {
        Some(Seq::empty())
    } else {
        match (parse_group(texts.drop_last()), id_parse(texts.last())) {
            (Some(group), Some(c)) => Some(group.push(c)),
            _ => None,
        }
    }
}

/// Where a front part of the texts denotes no group, the whole does not.
pub proof fn lemma_parse_group_prefix(texts: Seq<Seq<char>>, n: int)
    requires
        0 <= n <= texts.len(),
        parse_group(texts.take(n)) is None,
    ensures
        parse_group(texts) is None,
    decreases texts.len() - n,
{
    if n < texts.len() {
        assert(texts.take(n + 1).drop_last() =~= texts.take(n));
        lemma_parse_group_prefix(texts, n + 1);
    } else {
        assert(texts.take(n) =~= texts);
    }
}

/// The textual forms of a group, which denote the group again.
pub fn group_to_text(group: &Vec<u128>) -> (texts: Vec<String>)
    ensures
        texts.deep_view() == group_text(group@),
        parse_group(texts.deep_view()) == Some(group@),
{
    let mut texts: Vec<String> = Vec::new();
    let mut i: usize = 0;
    assert(texts.deep_view() =~= group_text(group@.take(0)));
    assert(group@.take(0) =~= Seq::<u128>::empty());
    while i < group.len()
        invariant
            i <= group@.len(),
            texts.deep_view() == group_text(group@.take(i as int)),
            parse_group(texts.deep_view()) == Some(group@.take(i as int)),
        decreases group@.len() - i,
    {
        let ghost done = texts.deep_view();
        let text = chunk_id_text(group[i]);
        texts.push(text);
        proof {
            assert(texts.deep_view() =~= done.push(id_text(group@[i as int])));
            assert(texts.deep_view().drop_last() =~= done);
            assert(group@.take(i + 1) =~= group@.take(i as int).push(group@[i as int]));
            assert(texts.deep_view() =~= group_text(group@.take(i + 1)));
        }
        i += 1;
    }
    assert(group@.take(i as int) =~= group@);
    texts
}

/// The group that a list of texts denotes, or `InvalidInput` where a text
/// denotes no identifier.
pub fn group_from_text(texts: &Vec<String>) -> (r: Result<Vec<u128>, FsError>)
    ensures
        match parse_group(texts.deep_view()) {
            Some(group) => r matches Ok(g) && g@ == group,
            None => r matches Err(e) && e == FsError::InvalidInput,
        },
{
    let ghost tv = texts.deep_view();
    let mut group: Vec<u128> = Vec::new();
    let mut i: usize = 0;
    assert(tv.take(0) =~= Seq::<Seq<char>>::empty());
    while i < texts.len()
        invariant
            tv == texts.deep_view(),
            i <= texts@.len(),
            parse_group(tv.take(i as int)) == Some(group@),
        decreases texts@.len() - i,
    {
        proof {
            assert(tv.take(i + 1).drop_last() =~= tv.take(i as int));
            assert(tv[i as int] == texts@[i as int]@);
        }
        match parse_chunk_id(texts[i].as_str()) {
            Ok(id) => {
                group.push(id);
            },
            Err(e) => {
                proof {
                    lemma_parse_group_prefix(tv, i + 1);
                }
                return Err(e);
            },
        }
        i += 1;
    }
    assert(tv.take(i as int) =~= tv);
    Ok(group)
}

} // verus!
