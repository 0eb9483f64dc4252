//! Results of reading a list of files, and how they are put back in order.

use vstd::prelude::*;
use vstd::string::StringExecFns;

verus! {

/// How one read ended.
#[derive(Debug, Clone, PartialEq, Eq)]
pub enum ReadStatus {
    /// The file was read completely.
    Loaded,
    /// The file could not be opened or fully read; the text says why.
    Failed(String),
}

/// What reading one file of the list produced.
///
/// `index` is the position of the file in the caller's list. A result whose
/// status is `Failed` still carries a payload, which nothing looks at.
#[derive(Debug, Clone, PartialEq, Eq)]
pub struct ReadResult<P> {
    pub index: usize,
    pub payload: P,
    pub status: ReadStatus,
}

/// Why an operation produced nothing.
#[derive(Debug, Clone, PartialEq, Eq)]
pub enum Failure {
    /// The gathered results do not hold exactly one result for every file.
    Incomplete,
    /// The file at position `index` of the list could not be read, and the
    /// operation does not tolerate that.
    Unreadable { index: usize, path: String, cause: String },
}

/// What a failure says of itself.
pub open spec fn failure_text(failure: Failure) -> Seq<char> {
    match failure {
        Failure::Incomplete => "reading the files did not yield one result per file"@,
        Failure::Unreadable { index, path, cause } => "Failed to read file "@ + path@ + ": "@
            + cause@,
    }
}

impl Failure {
    /// A description for the caller: for an unreadable file, its path and
    /// the cause.
    pub fn message(&self) -> (text: String)
        ensures
            text@ == failure_text(*self),
    {
        match self {
            Failure::Incomplete => String::from_str(
                "reading the files did not yield one result per file",
            ),
            Failure::Unreadable { index, path, cause } => {
                let mut text = String::from_str("Failed to read file ");
                text.append(path.as_str());
                text.append(": ");
                text.append(cause.as_str());
                text
            },
        }
    }
}

impl<P> ReadResult<P> {
    /// A result for a file that was read.
    pub fn loaded(index: usize, payload: P) -> (r: Self)
        ensures
            r.index == index,
            r.payload == payload,
            r.status == ReadStatus::Loaded,
    {
        ReadResult { index, payload, status: ReadStatus::Loaded }
    }

    /// A result for a file that could not be read. The payload is a
    /// placeholder of the caller's choice.
    pub fn failed(index: usize, placeholder: P, cause: String) -> (r: Self)
        ensures
            r.index == index,
            r.payload == placeholder,
            r.status == ReadStatus::Failed(cause),
    {
        ReadResult { index, payload: placeholder, status: ReadStatus::Failed(cause) }
    }

    /// Whether the file was read.
    pub fn is_loaded(&self) -> (b: bool)
        ensures
            b == (self.status == ReadStatus::Loaded),
    {
        match &self.status {
            ReadStatus::Loaded => true,
            ReadStatus::Failed(_) => false,
        }
    }
}

/// The results hold exactly one result for each of `n` files: every index is
/// below `n`, no index occurs twice, and every position below `n` occurs.
pub open spec fn covers<P>(reads: Seq<ReadResult<P>>, n: nat) -> bool {
    &&& reads.len() == n
    &&& forall|p: int| 0 <= p < reads.len() ==> (#[trigger] reads[p]).index < n
    &&& forall|p: int, q: int|
        0 <= p < reads.len() && 0 <= q < reads.len() && p != q ==> (#[trigger] reads[p]).index
            != (#[trigger] reads[q]).index
    &&& forall|i: int| 0 <= i < n ==> #[trigger] present(reads, i)
}

/// Some result belongs to the file at position `i` of the list.
pub open spec fn present<P>(reads: Seq<ReadResult<P>>, i: int) -> bool {
    exists|p: int| 0 <= p < reads.len() && (#[trigger] reads[p]).index == i
}

/// `order[i]` is where the result of file `i` stands among `reads`.
pub open spec fn is_order_of<P>(order: Seq<usize>, reads: Seq<ReadResult<P>>) -> bool {
    &&& order.len() == reads.len()
    &&& forall|i: int|
        0 <= i < order.len() ==> (#[trigger] order[i]) < reads.len() && reads[order[i] as int].index
            == i
}

/// The result of file `i`, for results that cover the list.
pub open spec fn result_of<P>(reads: Seq<ReadResult<P>>, i: int) -> ReadResult<P> {
    reads[choose|p: int| 0 <= p < reads.len() && (#[trigger] reads[p]).index == i]
}

/// The file at position `i` of the list could not be read.
pub open spec fn failed_at<P>(reads: Seq<ReadResult<P>>, i: int) -> bool {
    result_of(reads, i).status is Failed
}

/// An order of the results picks, for each file, the one result that belongs to it.
pub proof fn lemma_order_picks_result<P>(order: Seq<usize>, reads: Seq<ReadResult<P>>, i: int)
    requires
        is_order_of(order, reads),
        covers(reads, reads.len()),
        0 <= i < reads.len(),
    ensures
        reads[order[i] as int] == result_of(reads, i),
{
    let p = order[i] as int;
    assert(reads[p].index == i);
    let q = choose|q: int| 0 <= q < reads.len() && (#[trigger] reads[q]).index == i;
    assert(reads[p].index == reads[q].index);
}

/// Which result belongs to a file does not depend on the order in which the
/// results arrived: two gatherings that cover the list and hold the same
/// results agree on the result of every file.
pub proof fn lemma_arrival_order_is_irrelevant<P>(
    first: Seq<ReadResult<P>>,
    second: Seq<ReadResult<P>>,
    n: nat,
    i: int,
)
    requires
        covers(first, n),
        covers(second, n),
        forall|p: int|
            0 <= p < first.len() ==> exists|q: int|
                0 <= q < second.len() && #[trigger] second[q] == #[trigger] first[p],
        0 <= i < n,
    ensures
        result_of(first, i) == result_of(second, i),
{
    assert(present(first, i));
    assert(present(second, i));
    let p = choose|p: int| 0 <= p < first.len() && (#[trigger] first[p]).index == i;
    let q = choose|q: int| 0 <= q < second.len() && (#[trigger] second[q]).index == i;
    let same = choose|k: int| 0 <= k < second.len() && #[trigger] second[k] == first[p];
    assert(second[same].index == second[q].index);
}

/// Finds, for every file of a list of `n`, the position of its result,
/// whatever order the results arrived in. Fails when the results do not
/// cover the list.
pub fn order_by_index<P>(reads: &Vec<ReadResult<P>>, n: usize) -> (r: Option<Vec<usize>>)
    ensures
        r.is_some() <==> covers(reads@, n as nat),
        r matches Some(order) ==> is_order_of(order@, reads@),
{
    if reads.len() != n {
        return None;
    }
    let mut order: Vec<usize> = Vec::with_capacity(n);
    let mut i: usize = 0;
    while i < n
        invariant
            i <= n,
            order@.len() == i,
            forall|j: int| 0 <= j < i ==> order@[j] == n,
        decreases n - i,
    {
        order.push(n);
        i += 1;
    }
    let mut p: usize = 0;
    while p < n
        invariant
            p <= n,
            reads@.len() == n,
            order@.len() == n,
            forall|q: int| 0 <= q < p ==> (#[trigger] reads@[q]).index < n,
            forall|q: int| 0 <= q < p ==> order@[(#[trigger] reads@[q]).index as int] == q,
            forall|j: int|
                0 <= j < n ==> (#[trigger] order@[j]) == n || (order@[j] < p
                    && reads@[order@[j] as int].index == j),
        decreases n - p,
    {
        let idx: usize = reads[p].index;
        if idx >= n {
            return None;
        }
        if order[idx] != n {
            proof {
                let q = order@[idx as int] as int;
                assert(reads@[q].index == reads@[p as int].index);
            }
            return None;
        }
        order.set(idx, p);
        p += 1;
    }
    let mut k: usize = 0;
    while k < n
        invariant
            k <= n,
            reads@.len() == n,
            order@.len() == n,
            forall|q: int| 0 <= q < n ==> (#[trigger] reads@[q]).index < n,
            forall|q: int| 0 <= q < n ==> order@[(#[trigger] reads@[q]).index as int] == q,
            forall|j: int|
                0 <= j < n ==> (#[trigger] order@[j]) == n || (order@[j] < n
                    && reads@[order@[j] as int].index == j),
            forall|j: int| 0 <= j < k ==> (#[trigger] order@[j]) != n,
        decreases n - k,
    {
        if order[k] == n {
            proof {
                assert forall|q: int| 0 <= q < reads@.len() implies (#[trigger] reads@[q]).index
                    != k by {
                    if reads@[q].index == k {
                        assert(order@[reads@[q].index as int] == q);
                    }
                }
                assert(!present(reads@, k as int));
            }
            return None;
        }
        k += 1;
    }
    proof {
        assert forall|a: int, b: int|
            0 <= a < reads@.len() && 0 <= b < reads@.len() && a != b implies (#[trigger] reads@[a]).index
            != (#[trigger] reads@[b]).index by {
            assert(order@[reads@[a].index as int] == a);
            assert(order@[reads@[b].index as int] == b);
        }
        assert forall|j: int| 0 <= j < n implies #[trigger] present(reads@, j) by {
            assert(reads@[order@[j] as int].index == j);
        }
    }
    Some(order)
}

/// Puts the results in the order of the list, as `order_by_index` does, and
/// insists that every file was read: the first file of the list that was
/// not is reported with its path and the cause of its failure.
pub fn strict_order<P>(files: &Vec<String>, reads: &Vec<ReadResult<P>>) -> (r: Result<
    Vec<usize>,
    Failure,
>)
    ensures
        match r {
            Ok(order) => {
                &&& covers(reads@, files@.len())
                &&& is_order_of(order@, reads@)
                &&& forall|i: int| 0 <= i < files@.len() ==> !failed_at(reads@, i)
            },
            Err(Failure::Incomplete) => !covers(reads@, files@.len()),
            Err(Failure::Unreadable { index, path, cause }) => {
                &&& covers(reads@, files@.len())
                &&& index < files@.len()
                &&& forall|i: int| 0 <= i < index ==> !failed_at(reads@, i)
                &&& path@ == files@[index as int]@
                &&& result_of(reads@, index as int).status == ReadStatus::Failed(cause)
            },
        },
{
    let order = match order_by_index(reads, files.len()) {
        Some(order) => order,
        None => {
            return Err(Failure::Incomplete);
        },
    };
    let mut i: usize = 0;
    while i < files.len()
        invariant
            i <= files@.len(),
            covers(reads@, files@.len()),
            is_order_of(order@, reads@),
            forall|j: int| 0 <= j < i ==> !failed_at(reads@, j),
        decreases files@.len() - i,
    {
        proof {
            lemma_order_picks_result(order@, reads@, i as int);
        }
        match &reads[order[i]].status {
            ReadStatus::Loaded => {},
            ReadStatus::Failed(cause) => {
                return Err(
                    Failure::Unreadable { index: i, path: files[i].clone(), cause: cause.clone() },
                );
            },
        }
        i += 1;
    }
    Ok(order)
}

} // verus!
