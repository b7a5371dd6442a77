//! The files of a chunk: their names, and the metadata among them.

use crate::text;
use vstd::prelude::*;

verus! {

/// The name of a chunk's file: the chunk's number between two fixed parts.
pub open spec fn numbered(before: Seq<char>, n: nat, after: Seq<char>) -> Seq<char> {
    before + text::decimal(n) + after
}

fn numbered_name(before: &str, n: usize, after: &str) -> (r: String)
    ensures
        r@ == numbered(before@, n as nat, after@),
{
    let mut r = before.to_owned();
    text::push_decimal(&mut r, n);
    r.append(after);
    r
}

pub open spec fn codes_name(chunk: nat) -> Seq<char> {
    numbered(""@, chunk, ".codes.npy"@)
}

pub open spec fn residuals_name(chunk: nat) -> Seq<char> {
    numbered(""@, chunk, ".residuals.npy"@)
}

pub open spec fn doclens_name(chunk: nat) -> Seq<char> {
    numbered("doclens."@, chunk, ".npy"@)
}

pub open spec fn passage_ids_name(chunk: nat) -> Seq<char> {
    numbered(""@, chunk, ".passage_ids.npy"@)
}

pub open spec fn metadata_name(chunk: nat) -> Seq<char> {
    numbered(""@, chunk, ".metadata.json"@)
}

/// The names of a chunk's files.
pub open spec fn chunk_names(chunk: nat) -> Seq<Seq<char>> {
    seq![
        codes_name(chunk),
        residuals_name(chunk),
        doclens_name(chunk),
        passage_ids_name(chunk),
        metadata_name(chunk),
    ]
}

/// The texts of a list of strings.
pub open spec fn texts(names: Seq<String>) -> Seq<Seq<char>> {
    names.map_values(|s: String| s@)
}

pub fn codes_file(chunk: usize) -> (r: String)
    ensures
        r@ == codes_name(chunk as nat),
{
    numbered_name("", chunk, ".codes.npy")
}

pub fn residuals_file(chunk: usize) -> (r: String)
    ensures
        r@ == residuals_name(chunk as nat),
{
    numbered_name("", chunk, ".residuals.npy")
}

pub fn doclens_file(chunk: usize) -> (r: String)
    ensures
        r@ == doclens_name(chunk as nat),
{
    numbered_name("doclens.", chunk, ".npy")
}

pub fn passage_ids_file(chunk: usize) -> (r: String)
    ensures
        r@ == passage_ids_name(chunk as nat),
{
    numbered_name("", chunk, ".passage_ids.npy")
}

pub fn metadata_file(chunk: usize) -> (r: String)
    ensures
        r@ == metadata_name(chunk as nat),
{
    numbered_name("", chunk, ".metadata.json")
}

/// The directory of a shard.
pub fn shard_dir(shard: usize) -> (r: String)
    ensures
        r@ == numbered("shard_"@, shard as nat, ""@),
{
    numbered_name("shard_", shard, "")
}

/// The names of a chunk's files.
pub fn chunk_files(chunk: usize) -> (r: Vec<String>)
    ensures
        texts(r@) == chunk_names(chunk as nat),
{
    let mut r: Vec<String> = Vec::new();
    r.push(codes_file(chunk));
    r.push(residuals_file(chunk));
    r.push(doclens_file(chunk));
    r.push(passage_ids_file(chunk));
    r.push(metadata_file(chunk));
    assert(texts(r@) =~= chunk_names(chunk as nat));
    r
}

/// The name under which a file is written before it takes its place.
pub fn temporary(name: &str) -> (r: String)
    ensures
        r@ == name@ + ".tmp"@,
{
    let mut r = name.to_owned();
    r.append(".tmp");
    r
}

/// The files of a chunk are named by its number.
pub proof fn chunk_files_are_named_by_number(chunk: nat)
    ensures
        codes_name(chunk) == text::decimal(chunk) + ".codes.npy"@,
        residuals_name(chunk) == text::decimal(chunk) + ".residuals.npy"@,
        doclens_name(chunk) == "doclens."@ + text::decimal(chunk) + ".npy"@,
        passage_ids_name(chunk) == text::decimal(chunk) + ".passage_ids.npy"@,
        metadata_name(chunk) == text::decimal(chunk) + ".metadata.json"@,
        numbered("shard_"@, chunk, ""@) == "shard_"@ + text::decimal(chunk),
        chunk_names(chunk).len() == 5,
        chunk_names(chunk).contains(codes_name(chunk)),
        chunk_names(chunk).contains(residuals_name(chunk)),
        chunk_names(chunk).contains(doclens_name(chunk)),
        chunk_names(chunk).contains(passage_ids_name(chunk)),
        chunk_names(chunk).contains(metadata_name(chunk)),
{
    reveal_strlit("");
    let n = text::decimal(chunk);
    assert(""@ + n =~= n);
    assert("shard_"@ + n + ""@ =~= "shard_"@ + n);
    let names = chunk_names(chunk);
    assert(names[0] == codes_name(chunk) && names[1] == residuals_name(chunk) && names[2]
        == doclens_name(chunk) && names[3] == passage_ids_name(chunk) && names[4]
        == metadata_name(chunk));
}

/// Different chunks have different files.
pub proof fn names_differ(before: Seq<char>, after: Seq<char>, m: nat, n: nat)
    requires
        m != n,
    ensures
        numbered(before, m, after) != numbered(before, n, after),
{
    let a = text::decimal(m);
    let b = text::decimal(n);
    text::decimals_differ(m, n);
    let x = numbered(before, m, after);
    let y = numbered(before, n, after);
    if x == y {
        assert(x.len() == before.len() + a.len() + after.len());
        assert(y.len() == before.len() + b.len() + after.len());
        assert(x.subrange(before.len() as int, (before.len() + a.len()) as int) =~= a);
        assert(y.subrange(before.len() as int, (before.len() + b.len()) as int) =~= b);
    }
}

/// Whether the directory holds a file of the given name.
pub open spec fn listed(files: Seq<String>, name: Seq<char>) -> bool {
    texts(files).contains(name)
}

/// A file is listed exactly where one of the names is its own.
pub proof fn listed_names_occur(files: Seq<String>, name: Seq<char>)
    ensures
        listed(files, name) <==> exists|i: int| 0 <= i < files.len() && (#[trigger] files[i])@ == name,
{
    if listed(files, name) {
        let i = choose|i: int| 0 <= i < texts(files).len() && texts(files)[i] == name;
        assert(files[i]@ == name);
    }
    if exists|i: int| 0 <= i < files.len() && (#[trigger] files[i])@ == name {
        let i = choose|i: int| 0 <= i < files.len() && (#[trigger] files[i])@ == name;
        assert(texts(files)[i] == name);
    }
}

fn is_listed(files: &Vec<String>, name: &String) -> (r: bool)
    ensures
        r == listed(files@, name@),
{
    let mut i: usize = 0;
    while i < files.len()
        invariant
            i <= files@.len(),
            forall|j: int| 0 <= j < i ==> (#[trigger] files@[j])@ != name@,
        decreases files@.len() - i,
    {
        if files[i] == *name {
            assert(texts(files@)[i as int] == name@);
            return true;
        }
        i += 1;
    }
    assert forall|j: int| 0 <= j < files@.len() implies texts(files@)[j] != name@ by {
        assert(files@[j]@ != name@);
    }
    false
}

/// A directory that holds the codes of the chunks below `n` holds `n` files.
proof fn listed_codes_fit(files: Seq<String>, n: nat)
    requires
        forall|i: nat| i < n ==> listed(files, #[trigger] codes_name(i)),
    ensures
        n <= files.len(),
{
    broadcast use vstd::set_lib::group_set_lib_default;

    let numbers = vstd::set_lib::set_int_range(0, n as int);
    vstd::set_lib::lemma_int_range(0, n as int);
    let f = |i: int| codes_name(i as nat);
    let names = numbers.map(f);
    assert(vstd::relations::injective_on(f, numbers)) by {
        assert forall|i: int, j: int|
            numbers.contains(i) && numbers.contains(j) && #[trigger] f(i) == #[trigger] f(
                j,
            ) implies i == j by {
            if i != j {
                names_differ(""@, ".codes.npy"@, i as nat, j as nat);
            }
        }
    }
    vstd::set_lib::lemma_map_size(numbers, names, f);
    let held = texts(files).to_set();
    texts(files).lemma_cardinality_of_set();
    assert(names.subset_of(held)) by {
        assert forall|x: Seq<char>| names.contains(x) implies held.contains(x) by {
            let i = choose|i: int| numbers.contains(i) && f(i) == x;
            assert(listed(files, codes_name(i as nat)));
        }
    }
    vstd::set_lib::lemma_len_subset(names, held);
}

/// Count how many contiguous chunk files exist starting from index 0, among
/// the files of the index directory.
pub fn count_chunks(files: &Vec<String>) -> (n: usize)
    ensures
        forall|i: nat| i < n ==> listed(files@, #[trigger] codes_name(i)),
        !listed(files@, codes_name(n as nat)),
{
    let mut n: usize = 0;
    while is_listed(files, &codes_file(n))
        invariant
            n <= files@.len(),
            forall|i: nat| i < n ==> listed(files@, #[trigger] codes_name(i)),
        decreases files@.len() - n,
    {
        assert(n < files.len()) by {
            assert forall|i: nat| i < n + 1 implies listed(files@, #[trigger] codes_name(i)) by {}
            listed_codes_fit(files@, (n + 1) as nat);
        }
        n += 1;
    }
    n
}

/// The metadata of a chunk.
#[derive(Debug, Clone, Copy, PartialEq, Eq, Structural)]
pub struct ChunkMeta {
    pub passage_offset: Option<usize>,
    pub num_passages: usize,
    pub num_embeddings: usize,
    pub embedding_offset: usize,
}

/// The text of a JSON object with the given keys and numbers.
pub uninterp spec fn json_object(fields: Seq<(Seq<char>, u64)>) -> Seq<u8>;

/// The number under a key of the JSON object that a text holds: nothing where
/// the text is no JSON, and no number where there is none under the key.
pub uninterp spec fn json_number(json: Seq<u8>, key: Seq<char>) -> Option<Option<u64>>;

#[verifier::external_type_specification]
#[verifier::external_body]
pub struct ExJsonError(serde_json::Error);

/// Keys and numbers, as texts.
pub open spec fn field_texts(fields: Seq<(String, u64)>) -> Seq<(Seq<char>, u64)> {
    fields.map_values(|f: (String, u64)| (f.0@, f.1))
}

/// No key occurs twice.
pub open spec fn distinct_keys(fields: Seq<(String, u64)>) -> bool {
    forall|i: int, j: int|
        0 <= i < j < fields.len() ==> (#[trigger] fields[i]).0@ != (#[trigger] fields[j]).0@
}

/// `serde_json::to_vec` of a map: the text of a JSON object with the given keys
/// and numbers. It cannot fail on keys that are strings. It is a function of the
/// keys and numbers, and where no key occurs twice, reading
/// the text gives back every number under its key, and no number under any other.
#[verifier::external_body]
fn write_json_object(fields: &Vec<(String, u64)>) -> (r: Vec<u8>)
    ensures
        r@ == json_object(field_texts(fields@)),
        distinct_keys(fields@) ==> forall|i: int|
            0 <= i < fields@.len() ==> json_number(r@, (#[trigger] fields@[i]).0@) == Some(
                Some(fields@[i].1),
            ),
        forall|key: Seq<char>|
            (forall|i: int| 0 <= i < fields@.len() ==> (#[trigger] fields@[i]).0@ != key)
                ==> #[trigger] json_number(r@, key) == Some(None::<u64>),
{
    let map: serde_json::Map<String, serde_json::Value> = fields
        .iter()
        .map(|f| (f.0.clone(), serde_json::Value::from(f.1)))
        .collect();
    serde_json::to_vec(&map).unwrap()
}

/// `serde_json::from_slice`, with `Value::get` and `Value::as_u64` of what it
/// gives: the number under a key, if there is one. It is a function of the text
/// and the key; the error of a text that is no JSON is handed on.
#[verifier::external_body]
fn read_json_number(json: &Vec<u8>, key: &str) -> (r: Result<Option<u64>, serde_json::Error>)
    ensures
        match r {
            Ok(n) => json_number(json@, key@) == Some(n),
            Err(_) => json_number(json@, key@) is None,
        },
{
    let value: serde_json::Value = serde_json::from_slice(json)?;
    Ok(value.get(key).and_then(serde_json::Value::as_u64))
}

/// The keys and numbers of a chunk's metadata.
pub open spec fn meta_fields(meta: ChunkMeta) -> Seq<(Seq<char>, u64)> {
    let counts = seq![
        ("num_passages"@, meta.num_passages as u64),
        ("num_embeddings"@, meta.num_embeddings as u64),
        ("embedding_offset"@, meta.embedding_offset as u64),
    ];
    match meta.passage_offset {
        Some(offset) => counts.push(("passage_offset"@, offset as u64)),
        None => counts,
    }
}

impl ChunkMeta {
    /// The contents of the chunk's metadata file.
    pub fn to_json(&self) -> (r: Vec<u8>)
        ensures
            r@ == json_object(meta_fields(*self)),
            json_number(r@, "num_passages"@) == Some(Some(self.num_passages as u64)),
            json_number(r@, "num_embeddings"@) == Some(Some(self.num_embeddings as u64)),
            json_number(r@, "embedding_offset"@) == Some(Some(self.embedding_offset as u64)),
            json_number(r@, "passage_offset"@) == Some(
                match self.passage_offset {
                    Some(offset) => Some(offset as u64),
                    None => None,
                },
            ),
    {
        let mut fields: Vec<(String, u64)> = Vec::new();
        fields.push(("num_passages".to_owned(), self.num_passages as u64));
        fields.push(("num_embeddings".to_owned(), self.num_embeddings as u64));
        fields.push(("embedding_offset".to_owned(), self.embedding_offset as u64));
        if let Some(offset) = self.passage_offset {
            fields.push(("passage_offset".to_owned(), offset as u64));
        }
        proof {
            reveal_strlit("num_passages");
            reveal_strlit("num_embeddings");
            reveal_strlit("embedding_offset");
            reveal_strlit("passage_offset");
            let (a, b, c, d) = (
                "num_passages"@,
                "num_embeddings"@,
                "embedding_offset"@,
                "passage_offset"@,
            );
            assert(a.len() == 12 && b.len() == 14 && c.len() == 16 && d.len() == 14);
            assert(b[0] == 'n' && d[0] == 'p');
            assert(a != b && a != c && a != d && b != c && b != d && c != d);
            assert(field_texts(fields@) =~= meta_fields(*self));
            assert(fields@[0].0@ == a && fields@[1].0@ == b && fields@[2].0@ == c);
            assert(fields@.len() > 3 ==> fields@[3].0@ == d);
            assert forall|i: int, j: int| 0 <= i < j < fields@.len() implies (
            #[trigger] fields@[i]).0@ != (#[trigger] fields@[j]).0@ by {
                assert(i == 0 || i == 1 || i == 2);
                assert(j == 1 || j == 2 || j == 3);
            }
        }
        let r = write_json_object(&fields);
        proof {
            assert(fields@[0].0@ == "num_passages"@);
            assert(fields@[1].0@ == "num_embeddings"@);
            assert(fields@[2].0@ == "embedding_offset"@);
            if self.passage_offset is Some {
                assert(fields@[3].0@ == "passage_offset"@);
            }
        }
        r
    }
}

/// The number of passages that a chunk's metadata file states.
pub fn read_num_passages(json: &Vec<u8>) -> (r: Result<Option<u64>, serde_json::Error>)
    ensures
        match r {
            Ok(n) => json_number(json@, "num_passages"@) == Some(n),
            Err(_) => json_number(json@, "num_passages"@) is None,
        },
{
    read_json_number(json, "num_passages")
}

} // verus!
