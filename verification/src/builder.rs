//! Joins file contents into one document, with a blank line after every file.

use vstd::prelude::*;
use vstd::string::StringExecFns;
use crate::reader::{covers, is_order_of, lemma_order_picks_result, order_by_index, result_of};
use crate::reader::{Failure, ReadResult, ReadStatus};

verus! {

/// What is put behind a file's content so that it ends in two newlines:
/// nothing where it already does, one newline where it ends in one, and two
/// where it ends in none.
pub open spec fn separator(content: Seq<char>) -> Seq<char> {
    let n = content.len() as int;
    if n >= 2 && content[n - 1] == '\n' && content[n - 2] == '\n' {
        Seq::empty()
    } else if n >= 1 && content[n - 1] == '\n' {
        seq!['\n']
    } else {
        seq!['\n', '\n']
    }
}

/// The text that stands in for a file that could not be read.
pub open spec fn error_marker(path: Seq<char>, cause: Seq<char>) -> Seq<char> {
    "-- Error reading "@ + path + ": "@ + cause + "\n"@
}

/// What a file contributes to the document: its content, or the marker of
/// its failure.
pub open spec fn rendered(path: Seq<char>, read: ReadResult<String>) -> Seq<char> {
    match read.status {
        ReadStatus::Loaded => read.payload@,
        ReadStatus::Failed(cause) => error_marker(path, cause@),
    }
}

/// The contributions of all files, in the order of the list.
pub open spec fn rendered_all(files: Seq<String>, reads: Seq<ReadResult<String>>) -> Seq<
    Seq<char>,
> {
    Seq::new(files.len(), |i: int| rendered(files[i]@, result_of(reads, i)))
}

/// The document: every content in order, each followed by its separator.
pub open spec fn schema_of(contents: Seq<Seq<char>>) -> Seq<char>
    decreases contents.len(),
{
    if contents.len() == 0 {
        Seq::empty()
    } else {
        schema_of(contents.drop_last()) + contents.last() + separator(contents.last())
    }
}

/// The views of a list of strings.
pub open spec fn texts(contents: Seq<String>) -> Seq<Seq<char>> {
    Seq::new(contents.len(), |i: int| contents[i]@)
}

/// `str::ends_with` with a string pattern: whether `suffix` is what `text`
/// ends in, character for character.
#[verifier::external_body]
fn ends_with(text: &str, suffix: &str) -> (b: bool)
    ensures
        b == suffix@.is_suffix_of(text@),
{
    text.ends_with(suffix)
}

/// `String::with_capacity`: an empty string with room for `capacity` bytes.
/// It panics where the capacity exceeds `isize::MAX` bytes.
pub assume_specification[ String::with_capacity ](capacity: usize) -> (s: String)
    requires
        capacity <= isize::MAX,
    ensures
        s@ == Seq::<char>::empty(),
;

/// The separator that belongs behind `content`.
pub fn separator_for(content: &str) -> (sep: &'static str)
    ensures
        sep@ == separator(content@),
{
    proof {
        reveal_strlit("\n\n");
        reveal_strlit("\n");
        reveal_strlit("");
    }
    let ghost n = content@.len() as int;
    if ends_with(content, "\n\n") {
        proof {
            let tail = content@.subrange(n - 2, n);
            assert(tail[0] == '\n' && tail[1] == '\n');
        }
        ""
    } else if ends_with(content, "\n") {
        proof {
            let tail = content@.subrange(n - 1, n);
            assert(tail[0] == '\n');
            if n >= 2 && content@[n - 2] == '\n' {
                assert(content@.subrange(n - 2, n) =~= "\n\n"@);
            }
        }
        "\n"
    } else {
        proof {
            if n >= 1 && content@[n - 1] == '\n' {
                assert(content@.subrange(n - 1, n) =~= "\n"@);
            }
        }
        "\n\n"
    }
}

/// Builds the marker for a file that could not be read.
pub fn read_error_marker(path: &str, cause: &str) -> (marker: String)
    ensures
        marker@ == error_marker(path@, cause@),
{
    let mut marker = String::from_str("-- Error reading ");
    marker.append(path);
    marker.append(": ");
    marker.append(cause);
    marker.append("\n");
    marker
}

/// Appends one content and its separator to the document.
pub fn push_content(output: &mut String, content: &str)
    ensures
        final(output)@ == old(output)@ + content@ + separator(content@),
{
    output.append(content);
    output.append(separator_for(content));
}

/// The document grows by one content and its separator per file.
pub proof fn lemma_schema_step(contents: Seq<Seq<char>>, i: int)
    requires
        0 <= i < contents.len(),
    ensures
        schema_of(contents.take(i + 1)) == schema_of(contents.take(i)) + contents[i] + separator(
            contents[i],
        ),
{
    assert(contents.take(i + 1).drop_last() =~= contents.take(i));
}

/// Joins contents that stand in the order of their files.
pub fn concat_contents(contents: &Vec<String>) -> (output: String)
    ensures
        output@ == schema_of(texts(contents@)),
{
    let mut output = String::with_capacity(10_000_000);
    let mut i: usize = 0;
    while i < contents.len()
        invariant
            i <= contents@.len(),
            output@ == schema_of(texts(contents@).take(i as int)),
        decreases contents@.len() - i,
    {
        proof {
            lemma_schema_step(texts(contents@), i as int);
        }
        push_content(&mut output, contents[i].as_str());
        i += 1;
    }
    assert(texts(contents@).take(contents@.len() as int) =~= texts(contents@));
    output
}

/// Builds the document for a list of files from the gathered results of
/// reading them, in whatever order those arrived. A file that could not be
/// read contributes a marker in place of its content. Fails only where the
/// results do not cover the list.
pub fn build_schema(files: &Vec<String>, reads: &Vec<ReadResult<String>>) -> (r: Result<
    String,
    Failure,
>)
    ensures
        r.is_ok() <==> covers(reads@, files@.len()),
        r matches Ok(output) ==> output@ == schema_of(rendered_all(files@, reads@)),
        r matches Err(e) ==> e == Failure::Incomplete,
{
    let order = match order_by_index(reads, files.len()) {
        Some(order) => order,
        None => {
            return Err(Failure::Incomplete);
        },
    };
    let ghost contents = rendered_all(files@, reads@);
    let mut output = String::with_capacity(10_000_000);
    let mut i: usize = 0;
    while i < files.len()
        invariant
            i <= files@.len(),
            covers(reads@, files@.len()),
            is_order_of(order@, reads@),
            contents == rendered_all(files@, reads@),
            output@ == schema_of(contents.take(i as int)),
        decreases files@.len() - i,
    {
        proof {
            lemma_schema_step(contents, i as int);
            lemma_order_picks_result(order@, reads@, i as int);
        }
        let read = &reads[order[i]];
        match &read.status {
            ReadStatus::Loaded => {
                push_content(&mut output, read.payload.as_str());
            },
            ReadStatus::Failed(cause) => {
                let marker = read_error_marker(files[i].as_str(), cause.as_str());
                push_content(&mut output, marker.as_str());
            },
        }
        i += 1;
    }
    assert(contents.take(files@.len() as int) =~= contents);
    Ok(output)
}

/// Where the content of file `i` starts in the document.
pub open spec fn offset_of(contents: Seq<Seq<char>>, i: int) -> int {
    schema_of(contents.take(i)).len() as int
}

/// The document of the first `i` contents is the start of the whole document.
pub proof fn lemma_schema_prefix(contents: Seq<Seq<char>>, i: int)
    requires
        0 <= i <= contents.len(),
    ensures
        schema_of(contents.take(i)).is_prefix_of(schema_of(contents)),
    decreases contents.len(),
{
    if i == contents.len() {
        assert(contents.take(i) =~= contents);
    } else {
        lemma_schema_prefix(contents.drop_last(), i);
        assert(contents.drop_last().take(i) =~= contents.take(i));
    }
}

/// Every content stands in the document whole and unbroken, at its offset.
pub proof fn lemma_content_is_substring(contents: Seq<Seq<char>>, i: int)
    requires
        0 <= i < contents.len(),
    ensures
        0 <= offset_of(contents, i),
        offset_of(contents, i) + contents[i].len() <= schema_of(contents).len(),
        schema_of(contents).subrange(
            offset_of(contents, i),
            offset_of(contents, i) + contents[i].len(),
        ) == contents[i],
{
    lemma_schema_step(contents, i);
    lemma_schema_prefix(contents, i + 1);
    let start = offset_of(contents, i);
    let whole = schema_of(contents);
    let head = schema_of(contents.take(i + 1));
    assert(head == whole.subrange(0, head.len() as int));
    assert forall|k: int| 0 <= k < contents[i].len() implies whole[start + k] == contents[i][k] by {
        assert(head[start + k] == contents[i][k]);
        assert(whole.subrange(0, head.len() as int)[start + k] == whole[start + k]);
    }
    assert(whole.subrange(start, start + contents[i].len()) =~= contents[i]);
}

/// The contents stand in the document in the order of the list: an earlier
/// one ends before a later one starts.
pub proof fn lemma_contents_in_order(contents: Seq<Seq<char>>, i: int, j: int)
    requires
        0 <= i < j < contents.len(),
    ensures
        offset_of(contents, i) + contents[i].len() <= offset_of(contents, j),
{
    lemma_schema_step(contents, i);
    lemma_schema_prefix(contents.take(j), i + 1);
    assert(contents.take(j).take(i + 1) =~= contents.take(i + 1));
}

/// The separator goes by the newlines that a content ends in: two behind a
/// content that ends in none, one behind the same content with one newline,
/// none behind anything that ends in two.
pub proof fn lemma_separator_rule(body: Seq<char>, text: Seq<char>)
    requires
        body.len() == 0 || body.last() != '\n',
    ensures
        separator(body) == seq!['\n', '\n'],
        separator(body.push('\n')) == seq!['\n'],
        separator(text.push('\n').push('\n')) == Seq::<char>::empty(),
{
}

/// Whatever a content ends in, with its separator it ends in exactly the
/// two newlines that the rule asks for.
pub proof fn lemma_separated_ends_blank(content: Seq<char>)
    ensures
        seq!['\n', '\n'].is_suffix_of(content + separator(content)),
        separator(content).len() <= 2,
{
    let whole = content + separator(content);
    let n = whole.len() as int;
    assert(whole.subrange(n - 2, n) =~= seq!['\n', '\n']);
}

/// The same contents in the same order give the same document.
pub proof fn lemma_schema_repeatable(first: Seq<Seq<char>>, second: Seq<Seq<char>>)
    requires
        first.len() == second.len(),
        forall|i: int| 0 <= i < first.len() ==> first[i] == second[i],
    ensures
        schema_of(first) == schema_of(second),
{
    assert(first =~= second);
}

} // verus!
