//! Directory parsing: one `Issue` record per report file, ordered by
//! ascending issue number.
//!
//! The file system itself stays outside the library: a caller lists the
//! directory and reads each file, and hands the library one `IssueFile`
//! per entry, in whatever order the listing produced them.

use crate::text::{
    chars_to_string, parse_u16, parse_u16_chars, split_lines, split_lines_exec, str_chars,
    strip_title, title_of, vec_views,
};
use vstd::prelude::*;
use vstd::string::*;

verus! {

/// One parsed report.
#[derive(Debug, PartialEq)]
pub struct Issue {
    /// The number from the source file's name.
    pub issue_number: u16,
    /// The report's author, from the first line of the file.
    pub watson: String,
    /// The report's classification, from the third line of the file.
    pub severity: String,
    /// The report's one-line description, from the fifth line of the
    /// file, cleaned of its heading marker.
    pub title: String,
}

/// The mathematical value of an [`Issue`].
#[verifier::ext_equal]
pub struct IssueV {
    pub issue_number: u16,
    pub watson: Seq<char>,
    pub severity: Seq<char>,
    pub title: Seq<char>,
}

impl View for Issue {
    type V = IssueV;

    open spec fn view(&self) -> IssueV {
        IssueV {
            issue_number: self.issue_number,
            watson: self.watson@,
            severity: self.severity@,
            title: self.title@,
        }
    }
}

/// One directory entry as the caller saw it: the entry's path, its file
/// stem (the base name without extension, when it was valid text), and
/// the file's content, or the read error's message when reading failed.
pub struct IssueFile {
    pub path: String,
    pub stem: Option<String>,
    pub content: Result<String, String>,
}

/// The mathematical value of an [`IssueFile`].
#[verifier::ext_equal]
pub struct IssueFileV {
    pub path: Seq<char>,
    pub stem: Option<Seq<char>>,
    pub content: Result<Seq<char>, Seq<char>>,
}

impl View for IssueFile {
    type V = IssueFileV;

    open spec fn view(&self) -> IssueFileV {
        IssueFileV {
            path: self.path@,
            stem: match self.stem {
                Some(s) => Some(s@),
                None => None,
            },
            content: match self.content {
                Ok(c) => Ok(c@),
                Err(e) => Err(e@),
            },
        }
    }
}

/// The issue number encoded in a file's stem, if any.
pub open spec fn stem_number(f: IssueFileV) -> Option<u16> {
    match f.stem {
        Some(s) => parse_u16_chars(s),
        None => None,
    }
}

/// The lines of a file's content.
pub open spec fn content_lines(f: IssueFileV) -> Seq<Seq<char>>
    recommends
        f.content is Ok,
{
    split_lines(f.content->Ok_0)
}

/// A file parses into an issue when its content could be read, its stem
/// is an issue number of at least 1, and it has at least five lines.
pub open spec fn file_ok(f: IssueFileV) -> bool {
    &&& f.content is Ok
    &&& stem_number(f) is Some
    &&& stem_number(f)->0 >= 1
    &&& content_lines(f).len() >= 5
}

/// The issue parsed from a well-formed file: author from line 1,
/// severity from line 3, cleaned title from line 5, number from the stem.
pub open spec fn issue_of(f: IssueFileV) -> IssueV
    recommends
        file_ok(f),
{
    IssueV {
        issue_number: stem_number(f)->0,
        watson: content_lines(f)[0],
        severity: content_lines(f)[2],
        title: title_of(content_lines(f)[4]),
    }
}

/// The underlying cause reported for a file that does not parse.
pub open spec fn file_cause(f: IssueFileV) -> Seq<char>
    recommends
        !file_ok(f),
{
    if f.content is Err {
        "Error while reading file content to string: "@ + f.content->Err_0
    } else if !(stem_number(f) is Some) {
        "file name is not a valid issue number"@
    } else if stem_number(f)->0 == 0 {
        "issue number must be at least 1"@
    } else {
        "file has fewer than 5 lines"@
    }
}

/// The full error reported for a file that does not parse: the cause,
/// wrapped with the file's path.
pub open spec fn file_error(f: IssueFileV) -> Seq<char> {
    "Error while parsing markdown file `"@ + f.path + "`: "@ + file_cause(f)
}

/// Wraps a cause message with the offending file's path.
fn wrap_file_error(path: &String, cause: String) -> (r: String)
    ensures
        r@ == "Error while parsing markdown file `"@ + path@ + "`: "@ + cause@,
{
    let mut msg = String::new();
    msg.append("Error while parsing markdown file `");
    msg.append(path.as_str());
    msg.append("`: ");
    msg.append(cause.as_str());
    msg
}

/// Parses one report file into an [`Issue`].
///
/// The record is read by fixed line position: line 1 is the author,
/// line 3 the severity, line 5 the title (with its leading `#` run and
/// surrounding whitespace removed); the issue number comes from the
/// file's stem.
pub fn parse_markdown_file(file: &IssueFile) -> (r: Result<Issue, String>)
    ensures
        file_ok(file@) ==> r is Ok && r->Ok_0@ == issue_of(file@),
        !file_ok(file@) ==> r is Err && r->Err_0@ == file_cause(file@),
{
    let content: &String = match &file.content {
        Ok(c) => c,
        Err(e) => {
            let mut msg = String::new();
            msg.append("Error while reading file content to string: ");
            msg.append(e.as_str());
            return Err(msg);
        },
    };
    let number: u16 = match &file.stem {
        Some(s) => match parse_u16(s.as_str()) {
            Some(n) => n,
            None => {
                return Err("file name is not a valid issue number".to_owned());
            },
        },
        None => {
            return Err("file name is not a valid issue number".to_owned());
        },
    };
    if number == 0 {
        return Err("issue number must be at least 1".to_owned());
    }
    let chars = str_chars(content.as_str());
    let lines = split_lines_exec(&chars);
    if lines.len() < 5 {
        return Err("file has fewer than 5 lines".to_owned());
    }
    proof {
        assert(vec_views(lines@)[0] == lines@[0]@);
        assert(vec_views(lines@)[2] == lines@[2]@);
        assert(vec_views(lines@)[4] == lines@[4]@);
    }
    let watson = chars_to_string(&lines[0]);
    let severity = chars_to_string(&lines[2]);
    let title_chars = strip_title(&lines[4]);
    let title = chars_to_string(&title_chars);
    Ok(Issue { issue_number: number, watson, severity, title })
}

// ---------------------------------------------------------------------------
// Ordering the directory's entries
// ---------------------------------------------------------------------------

/// The views of a sequence of issue files.
pub open spec fn file_views(files: Seq<IssueFile>) -> Seq<IssueFileV> {
    files.map_values(|f: IssueFile| f@)
}

/// The views of a sequence of issues.
pub open spec fn issue_views(issues: Seq<Issue>) -> Seq<IssueV> {
    issues.map_values(|i: Issue| i@)
}

/// The key a directory entry is ordered by: entries whose stem is no
/// issue number sort lowest, the others by their number.
pub open spec fn sort_key(f: IssueFileV) -> u64 {
    match stem_number(f) {
        Some(n) => (n + 1) as u64,
        None => 0,
    }
}

/// One tag per entry: the entry's key in the high bits and its position
/// in the listing in the low 32 bits, so that ordering the tags orders
/// the entries stably by key.
pub open spec fn sort_tags(fv: Seq<IssueFileV>) -> Seq<u64>
    recommends
        fv.len() <= 0xFFFFFFFF,
{
    Seq::new(fv.len(), |i: int| (sort_key(fv[i]) * 0x100000000 + i) as u64)
}

/// Numeric order on tags.
pub open spec fn u64_le() -> spec_fn(u64, u64) -> bool {
    |a: u64, b: u64| a <= b
}

/// The positions of the directory's entries in parsing order: ascending
/// by key, ties kept in listing order.
pub open spec fn sorted_order(fv: Seq<IssueFileV>) -> Seq<int> {
    sort_tags(fv).sort_by(u64_le()).map_values(|t: u64| t as int % 0x100000000)
}

/// Every entry of the listing parses into an issue.
pub open spec fn all_files_ok(fv: Seq<IssueFileV>) -> bool {
    forall|j: int| 0 <= j < fv.len() ==> file_ok(#[trigger] fv[j])
}

/// The issues of a listing whose entries all parse, in parsing order.
pub open spec fn parsed_issues(fv: Seq<IssueFileV>) -> Seq<IssueV>
    recommends
        fv.len() <= 0xFFFFFFFF,
        all_files_ok(fv),
{
    Seq::new(fv.len(), |k: int| issue_of(fv[sorted_order(fv)[k]]))
}

/// In a listing that fails to parse, position `k` of the parsing order
/// holds the first failing entry.
pub open spec fn first_failure(fv: Seq<IssueFileV>, k: int) -> bool {
    &&& 0 <= k < fv.len()
    &&& !file_ok(fv[sorted_order(fv)[k]])
    &&& forall|k2: int| 0 <= k2 < k ==> file_ok(#[trigger] fv[sorted_order(fv)[k2]])
}

proof fn lemma_u64_le_total()
    ensures
        vstd::relations::total_ordering(u64_le()),
{
    assert(vstd::relations::reflexive(u64_le()));
    assert(vstd::relations::antisymmetric(u64_le()));
    assert(vstd::relations::transitive(u64_le()));
    assert(vstd::relations::strongly_connected(u64_le()));
}

/// Each position of the sorted tag sequence names a listing position,
/// recoverable from the tag's low 32 bits.
proof fn lemma_tag_index(fv: Seq<IssueFileV>, k: int)
    requires
        fv.len() <= 0xFFFFFFFF,
        0 <= k < fv.len(),
    ensures
        0 <= sorted_order(fv)[k] < fv.len(),
        sort_tags(fv).sort_by(u64_le())[k] == sort_tags(fv)[sorted_order(fv)[k]],
{
    broadcast use vstd::seq_lib::group_to_multiset_ensures;

    let tags = sort_tags(fv);
    let st = tags.sort_by(u64_le());
    lemma_u64_le_total();
    tags.lemma_sort_by_ensures(u64_le());
    assert(st.len() == st.to_multiset().len());
    assert(tags.len() == tags.to_multiset().len());
    assert(st.contains(st[k]));
    assert(st.to_multiset().contains(st[k]));
    assert(tags.to_multiset().contains(st[k]));
    assert(tags.contains(st[k]));
    let j = choose|j: int| 0 <= j < tags.len() && tags[j] == st[k];
    assert(st[k] == (sort_key(fv[j]) * 0x100000000 + j) as u64);
    vstd::arithmetic::div_mod::lemma_mod_multiples_vanish(
        sort_key(fv[j]) as int,
        j,
        0x100000000,
    );
    vstd::arithmetic::div_mod::lemma_small_mod(j as nat, 0x100000000);
    assert(st[k] as int % 0x100000000 == j);
    assert(sorted_order(fv)[k] == j);
}

/// Every listing position appears somewhere in the parsing order.
proof fn lemma_order_covers(fv: Seq<IssueFileV>, j: int)
    requires
        fv.len() <= 0xFFFFFFFF,
        0 <= j < fv.len(),
    ensures
        exists|k: int| 0 <= k < fv.len() && #[trigger] sorted_order(fv)[k] == j,
{
    broadcast use vstd::seq_lib::group_to_multiset_ensures;

    let tags = sort_tags(fv);
    let st = tags.sort_by(u64_le());
    lemma_u64_le_total();
    tags.lemma_sort_by_ensures(u64_le());
    assert(st.len() == st.to_multiset().len());
    assert(tags.len() == tags.to_multiset().len());
    assert(tags[j] == (sort_key(fv[j]) * 0x100000000 + j) as u64);
    assert(tags.contains(tags[j]));
    assert(tags.to_multiset().contains(tags[j]));
    assert(st.to_multiset().contains(tags[j]));
    assert(st.contains(tags[j]));
    let k = choose|k: int| 0 <= k < st.len() && st[k] == tags[j];
    vstd::arithmetic::div_mod::lemma_mod_multiples_vanish(
        sort_key(fv[j]) as int,
        j,
        0x100000000,
    );
    vstd::arithmetic::div_mod::lemma_small_mod(j as nat, 0x100000000);
    assert(st[k] as int % 0x100000000 == j);
    assert(sorted_order(fv)[k] == j);
}

/// In a listing whose entries all parse, every position of the parsing
/// order names a valid entry, and the issue at that position is that
/// entry's issue.
pub proof fn lemma_parsed_issue_ok(fv: Seq<IssueFileV>, k: int)
    requires
        fv.len() <= 0xFFFFFFFF,
        all_files_ok(fv),
        0 <= k < fv.len(),
    ensures
        0 <= sorted_order(fv)[k] < fv.len(),
        parsed_issues(fv)[k] == issue_of(fv[sorted_order(fv)[k]]),
        file_ok(fv[sorted_order(fv)[k]]),
{
    lemma_tag_index(fv, k);
}

/// The parsing order is as long as the listing.
proof fn lemma_order_len(fv: Seq<IssueFileV>)
    requires
        fv.len() <= 0xFFFFFFFF,
    ensures
        sorted_order(fv).len() == fv.len(),
{
    broadcast use vstd::seq_lib::group_to_multiset_ensures;

    lemma_u64_le_total();
    sort_tags(fv).lemma_sort_by_ensures(u64_le());
    assert(sort_tags(fv).sort_by(u64_le()).len() == sort_tags(fv).sort_by(
        u64_le(),
    ).to_multiset().len());
    assert(sort_tags(fv).len() == sort_tags(fv).to_multiset().len());
}

/// No two positions of the listing carry the same tag.
proof fn lemma_tags_distinct(fv: Seq<IssueFileV>)
    requires
        fv.len() <= 0xFFFFFFFF,
    ensures
        sort_tags(fv).no_duplicates(),
{
    assert forall|i: int, j: int|
        0 <= i < fv.len() && 0 <= j < fv.len() && i != j implies sort_tags(fv)[i] != sort_tags(
        fv,
    )[j] by {
        vstd::arithmetic::div_mod::lemma_mod_multiples_vanish(sort_key(fv[i]) as int, i, 0x100000000);
        vstd::arithmetic::div_mod::lemma_small_mod(i as nat, 0x100000000);
        vstd::arithmetic::div_mod::lemma_mod_multiples_vanish(sort_key(fv[j]) as int, j, 0x100000000);
        vstd::arithmetic::div_mod::lemma_small_mod(j as nat, 0x100000000);
        assert(sort_tags(fv)[i] as int % 0x100000000 == i);
        assert(sort_tags(fv)[j] as int % 0x100000000 == j);
    }
}

/// Two distinct positions of the parsing order name two distinct
/// positions of the listing.
proof fn lemma_order_injective(fv: Seq<IssueFileV>, k1: int, k2: int)
    requires
        fv.len() <= 0xFFFFFFFF,
        0 <= k1 < fv.len(),
        0 <= k2 < fv.len(),
        k1 != k2,
    ensures
        sorted_order(fv)[k1] != sorted_order(fv)[k2],
{
    broadcast use vstd::seq_lib::group_to_multiset_ensures;

    let tags = sort_tags(fv);
    let st = tags.sort_by(u64_le());
    lemma_u64_le_total();
    tags.lemma_sort_by_ensures(u64_le());
    lemma_order_len(fv);
    assert(st.len() == fv.len());
    lemma_tags_distinct(fv);
    lemma_tag_index(fv, k1);
    lemma_tag_index(fv, k2);
    if sorted_order(fv)[k1] == sorted_order(fv)[k2] {
        assert(st[k1] == st[k2]);
        tags.lemma_multiset_has_no_duplicates();
        assert(forall|x: u64| st.to_multiset().contains(x) ==> st.to_multiset().count(x) == 1);
        st.lemma_multiset_has_no_duplicates_conv();
        assert(false);
    }
}

/// The ordering of entries is stable: two entries with equal keys
/// (equal issue numbers, or both with unparsable stems) are parsed in
/// their listing order.
pub proof fn lemma_order_stable(fv: Seq<IssueFileV>, k1: int, k2: int)
    requires
        fv.len() <= 0xFFFFFFFF,
        0 <= k1 < k2 < fv.len(),
        sort_key(fv[sorted_order(fv)[k1]]) == sort_key(fv[sorted_order(fv)[k2]]),
    ensures
        sorted_order(fv)[k1] < sorted_order(fv)[k2],
{
    let tags = sort_tags(fv);
    let st = tags.sort_by(u64_le());
    lemma_u64_le_total();
    tags.lemma_sort_by_ensures(u64_le());
    lemma_order_len(fv);
    assert(st.len() == fv.len());
    lemma_tag_index(fv, k1);
    lemma_tag_index(fv, k2);
    lemma_order_injective(fv, k1, k2);
    let j1 = sorted_order(fv)[k1];
    let j2 = sorted_order(fv)[k2];
    assert(vstd::relations::sorted_by(st, u64_le()));
    assert(u64_le()(st[k1], st[k2]));
    assert(st[k1] == (sort_key(fv[j1]) * 0x100000000 + j1) as u64);
    assert(st[k2] == (sort_key(fv[j2]) * 0x100000000 + j2) as u64);
}

/// Reordering a sequence leaves its multiset unchanged.
proof fn lemma_perm_multiset<A>(a: Seq<A>, b: Seq<A>, p: Seq<int>)
    requires
        p.len() == a.len(),
        b.len() == a.len(),
        forall|k: int| 0 <= k < p.len() ==> 0 <= #[trigger] p[k] < b.len(),
        forall|k1: int, k2: int| 0 <= k1 < k2 < p.len() ==> p[k1] != p[k2],
        forall|k: int| 0 <= k < a.len() ==> #[trigger] a[k] == b[p[k]],
    ensures
        a.to_multiset() == b.to_multiset(),
    decreases a.len(),
{
    broadcast use vstd::seq_lib::group_to_multiset_ensures;
    broadcast use vstd::multiset::group_multiset_axioms;

    if a.len() == 0 {
        assert(a.to_multiset().len() == 0);
        assert(b.to_multiset().len() == 0);
        assert(a.to_multiset() =~= b.to_multiset());
    } else {
        let n = a.len() - 1;
        let j = p[n];
        let a1 = a.drop_last();
        let b1 = b.remove(j);
        let p1 = Seq::new(n as nat, |k: int| if p[k] < j { p[k] } else { p[k] - 1 });
        b.remove_ensures(j);
        assert forall|k: int| 0 <= k < p1.len() implies 0 <= #[trigger] p1[k] < b1.len() by {
            assert(p[k] != j);
        }
        assert forall|k1: int, k2: int| 0 <= k1 < k2 < p1.len() implies p1[k1] != p1[k2] by {
            assert(p[k1] != p[k2]);
            assert(p[k1] != j);
            assert(p[k2] != j);
        }
        assert forall|k: int| 0 <= k < a1.len() implies #[trigger] a1[k] == b1[p1[k]] by {
            assert(a1[k] == a[k]);
            assert(p[k] != j);
            if p[k] < j {
                assert(b1[p[k]] == b[p[k]]);
            } else {
                assert(b1[p[k] - 1] == b[p[k]]);
            }
        }
        lemma_perm_multiset(a1, b1, p1);
        assert(a =~= a1.push(a.last()));
        assert(a1.push(a.last()).to_multiset() =~= a1.to_multiset().insert(a.last()));
        assert(b.remove(j).to_multiset() =~= b.to_multiset().remove(b[j]));
        assert(a.last() == b[j]);
        assert(b.contains(b[j]));
        vstd::seq_lib::to_multiset_contains(b, b[j]);
        assert(b.to_multiset().count(b[j]) > 0);
        assert(a.to_multiset() =~= b.to_multiset());
    }
}

/// Two sequences of issues with the same members, each strictly
/// ascending by issue number, are the same sequence.
proof fn lemma_strictly_increasing_unique(x: Seq<IssueV>, y: Seq<IssueV>)
    requires
        x.to_multiset() == y.to_multiset(),
        forall|i: int, j: int|
            0 <= i < j < x.len() ==> x[i].issue_number < x[j].issue_number,
        forall|i: int, j: int|
            0 <= i < j < y.len() ==> y[i].issue_number < y[j].issue_number,
    ensures
        x == y,
    decreases x.len(),
{
    broadcast use vstd::seq_lib::group_to_multiset_ensures;
    broadcast use vstd::multiset::group_multiset_axioms;

    assert(x.len() == x.to_multiset().len());
    assert(y.len() == y.to_multiset().len());
    if x.len() == 0 {
        assert(x =~= y);
    } else {
        assert(y.contains(y[0]));
        vstd::seq_lib::to_multiset_contains(y, y[0]);
        vstd::seq_lib::to_multiset_contains(x, y[0]);
        assert(x.contains(y[0]));
        let i = choose|i: int| 0 <= i < x.len() && x[i] == y[0];
        assert(x.contains(x[0]));
        vstd::seq_lib::to_multiset_contains(x, x[0]);
        vstd::seq_lib::to_multiset_contains(y, x[0]);
        assert(y.contains(x[0]));
        let j = choose|j: int| 0 <= j < y.len() && y[j] == x[0];
        if i > 0 {
            assert(x[0].issue_number < x[i].issue_number);
        }
        if j > 0 {
            assert(y[0].issue_number < y[j].issue_number);
        }
        assert(x[0] == y[0]);
        assert(x.remove(0) =~= x.drop_first());
        assert(y.remove(0) =~= y.drop_first());
        assert(x.remove(0).to_multiset() =~= x.to_multiset().remove(x[0]));
        assert(y.remove(0).to_multiset() =~= y.to_multiset().remove(y[0]));
        assert forall|i2: int, j2: int|
            0 <= i2 < j2 < x.drop_first().len() implies x.drop_first()[i2].issue_number
            < x.drop_first()[j2].issue_number by {
            assert(x.drop_first()[i2] == x[i2 + 1]);
            assert(x.drop_first()[j2] == x[j2 + 1]);
        }
        assert forall|i2: int, j2: int|
            0 <= i2 < j2 < y.drop_first().len() implies y.drop_first()[i2].issue_number
            < y.drop_first()[j2].issue_number by {
            assert(y.drop_first()[i2] == y[i2 + 1]);
            assert(y.drop_first()[j2] == y[j2 + 1]);
        }
        lemma_strictly_increasing_unique(x.drop_first(), y.drop_first());
        assert forall|k: int| 0 <= k < x.len() implies x[k] == y[k] by {
            if k > 0 {
                assert(x.drop_first()[k - 1] == x[k]);
                assert(y.drop_first()[k - 1] == y[k]);
            }
        }
        assert(x =~= y);
    }
}

/// In a fully parseable listing with pairwise distinct issue numbers,
/// the parsed issues are strictly ascending by number.
proof fn lemma_parsed_strictly_sorted(fv: Seq<IssueFileV>)
    requires
        fv.len() <= 0xFFFFFFFF,
        all_files_ok(fv),
        forall|i: int, j: int|
            0 <= i < j < fv.len() ==> stem_number(#[trigger] fv[i]) != stem_number(#[trigger] fv[j]),
    ensures
        forall|k1: int, k2: int|
            0 <= k1 < k2 < fv.len() ==> parsed_issues(fv)[k1].issue_number < parsed_issues(
                fv,
            )[k2].issue_number,
{
    let tags = sort_tags(fv);
    let st = tags.sort_by(u64_le());
    lemma_u64_le_total();
    tags.lemma_sort_by_ensures(u64_le());
    lemma_order_len(fv);
    assert(st.len() == fv.len());
    assert forall|k1: int, k2: int|
        0 <= k1 < k2 < fv.len() implies parsed_issues(fv)[k1].issue_number < parsed_issues(
        fv,
    )[k2].issue_number by {
        lemma_tag_index(fv, k1);
        lemma_tag_index(fv, k2);
        lemma_order_injective(fv, k1, k2);
        let j1 = sorted_order(fv)[k1];
        let j2 = sorted_order(fv)[k2];
        assert(vstd::relations::sorted_by(st, u64_le()));
        assert(u64_le()(st[k1], st[k2]));
        assert(st[k1] <= st[k2]);
        assert(st[k1] == (sort_key(fv[j1]) * 0x100000000 + j1) as u64);
        assert(st[k2] == (sort_key(fv[j2]) * 0x100000000 + j2) as u64);
        assert(sort_key(fv[j1]) <= sort_key(fv[j2]));
        if j1 < j2 {
            assert(stem_number(fv[j1]) != stem_number(fv[j2]));
        } else {
            assert(stem_number(fv[j2]) != stem_number(fv[j1]));
        }
        assert(sort_key(fv[j1]) != sort_key(fv[j2]));
        assert(parsed_issues(fv)[k1].issue_number == stem_number(fv[j1])->0);
        assert(parsed_issues(fv)[k2].issue_number == stem_number(fv[j2])->0);
    }
}

/// Parsing is independent of the listing order: a listing and any
/// reordering of it, when every entry parses and no two entries share
/// an issue number, parse to the same issue sequence.
pub proof fn lemma_parse_order_independent(
    fv1: Seq<IssueFileV>,
    fv2: Seq<IssueFileV>,
    q: Seq<int>,
)
    requires
        fv1.len() <= 0xFFFFFFFF,
        q.len() == fv1.len(),
        fv2.len() == fv1.len(),
        forall|k: int| 0 <= k < q.len() ==> 0 <= #[trigger] q[k] < fv1.len(),
        forall|k1: int, k2: int| 0 <= k1 < k2 < q.len() ==> q[k1] != q[k2],
        forall|k: int| 0 <= k < fv2.len() ==> #[trigger] fv2[k] == fv1[q[k]],
        all_files_ok(fv1),
        forall|i: int, j: int|
            0 <= i < j < fv1.len() ==> stem_number(#[trigger] fv1[i]) != stem_number(
                #[trigger] fv1[j],
            ),
    ensures
        parsed_issues(fv2) == parsed_issues(fv1),
{
    let n = fv1.len();
    assert(all_files_ok(fv2)) by {
        assert(forall|k: int| 0 <= k < n ==> file_ok(#[trigger] fv2[k]));
    }
    assert forall|i: int, j: int|
        0 <= i < j < fv2.len() implies stem_number(#[trigger] fv2[i]) != stem_number(
        #[trigger] fv2[j],
    ) by {
        assert(q[i] != q[j]);
        if q[i] < q[j] {
            assert(stem_number(fv1[q[i]]) != stem_number(fv1[q[j]]));
        } else {
            assert(stem_number(fv1[q[j]]) != stem_number(fv1[q[i]]));
        }
    }
    let p1 = parsed_issues(fv1);
    let p2 = parsed_issues(fv2);
    let mapped1 = fv1.map_values(|f: IssueFileV| issue_of(f));
    let mapped2 = fv2.map_values(|f: IssueFileV| issue_of(f));
    lemma_order_len(fv1);
    lemma_order_len(fv2);
    assert forall|k: int| 0 <= k < n implies 0 <= #[trigger] sorted_order(fv1)[k] < n by {
        lemma_tag_index(fv1, k);
    }
    assert forall|k1: int, k2: int|
        0 <= k1 < k2 < n implies sorted_order(fv1)[k1] != sorted_order(fv1)[k2] by {
        lemma_order_injective(fv1, k1, k2);
    }
    assert forall|k: int| 0 <= k < n implies #[trigger] p1[k] == mapped1[sorted_order(fv1)[k]] by {
        lemma_tag_index(fv1, k);
    }
    lemma_perm_multiset(p1, mapped1, sorted_order(fv1));
    assert forall|k: int| 0 <= k < n implies 0 <= #[trigger] sorted_order(fv2)[k] < n by {
        lemma_tag_index(fv2, k);
    }
    assert forall|k1: int, k2: int|
        0 <= k1 < k2 < n implies sorted_order(fv2)[k1] != sorted_order(fv2)[k2] by {
        lemma_order_injective(fv2, k1, k2);
    }
    assert forall|k: int| 0 <= k < n implies #[trigger] p2[k] == mapped2[sorted_order(fv2)[k]] by {
        lemma_tag_index(fv2, k);
    }
    lemma_perm_multiset(p2, mapped2, sorted_order(fv2));
    assert(forall|k: int| 0 <= k < n ==> #[trigger] mapped2[k] == mapped1[q[k]]);
    lemma_perm_multiset(mapped2, mapped1, q);
    lemma_parsed_strictly_sorted(fv1);
    lemma_parsed_strictly_sorted(fv2);
    lemma_strictly_increasing_unique(p2, p1);
}

/// The key of a directory entry, computed from its stem.
fn compute_sort_key(f: &IssueFile) -> (k: u64)
    ensures
        k == sort_key(f@),
{
    match &f.stem {
        Some(s) => match parse_u16(s.as_str()) {
            Some(n) => n as u64 + 1,
            None => 0,
        },
        None => 0,
    }
}

/// Sorts the tag vector ascending (insertion sort).
fn sort_tags_exec(v: &mut Vec<u64>)
    ensures
        final(v)@ == old(v)@.sort_by(u64_le()),
{
    broadcast use vstd::seq_lib::to_multiset_update;
    broadcast use vstd::seq_lib::group_to_multiset_ensures;
    broadcast use vstd::multiset::group_multiset_axioms;

    let ghost orig = v@;
    let n = v.len();
    let mut i: usize = 1;
    while i < n
        invariant
            1 <= i,
            i <= n || n == 0,
            n == v@.len(),
            v@.to_multiset() == orig.to_multiset(),
            forall|a: int, b: int| 0 <= a < b < i ==> v@[a] <= v@[b],
        decreases n - i,
    {
        let mut j: usize = i;
        while j > 0 && v[j - 1] > v[j]
            invariant
                j <= i < n == v@.len(),
                v@.to_multiset() == orig.to_multiset(),
                forall|a: int, b: int| 0 <= a < b <= i && b != j ==> v@[a] <= v@[b],
                forall|b: int| j < b <= i ==> v@[j as int] <= v@[b],
            decreases j,
        {
            let ghost s0 = v@;
            let x = v[j - 1];
            let y = v[j];
            v.set(j - 1, y);
            v.set(j, x);
            proof {
                vstd::seq_lib::to_multiset_update(s0, j - 1, y);
                vstd::seq_lib::to_multiset_update(s0.update(j - 1, y), j as int, x);
                assert(s0.update(j - 1, y).to_multiset() == s0.to_multiset().insert(y).remove(
                    x,
                ));
                assert(s0.update(j - 1, y)[j as int] == y);
                assert(v@ == s0.update(j - 1, y).update(j as int, x));
                assert(s0.update(j - 1, y).update(j as int, x).to_multiset() == s0.update(
                    j - 1,
                    y,
                ).to_multiset().insert(x).remove(y));
                assert(s0.contains(x));
                vstd::seq_lib::to_multiset_contains(s0, x);
                assert(s0.to_multiset().count(x) > 0);
                assert(v@.to_multiset() =~= s0.to_multiset());
            }
            j -= 1;
        }
        i += 1;
    }
    proof {
        lemma_u64_le_total();
        orig.lemma_sort_by_ensures(u64_le());
        assert(vstd::relations::sorted_by(v@, u64_le())) by {
            assert(forall|a: int, b: int| 0 <= a < b < v@.len() ==> v@[a] <= v@[b]);
        }
        vstd::seq_lib::lemma_sorted_unique(v@, orig.sort_by(u64_le()), u64_le());
    }
}

/// Parses a whole directory listing into its issues, ordered by
/// ascending issue number.
///
/// The listing order carries no meaning: entries are parsed in key
/// order (stable for equal keys), and the first entry that fails to
/// parse aborts the batch with an error naming that entry's path.
pub fn parse_directory(files: &Vec<IssueFile>) -> (r: Result<Vec<Issue>, String>)
    requires
        files@.len() <= 0xFFFFFFFF,
    ensures
        all_files_ok(file_views(files@)) ==> r is Ok && issue_views(r->Ok_0@) == parsed_issues(
            file_views(files@),
        ),
        !all_files_ok(file_views(files@)) ==> r is Err && exists|k: int|
            {
                &&& #[trigger] first_failure(file_views(files@), k)
                &&& r->Err_0@ == file_error(
                    file_views(files@)[sorted_order(file_views(files@))[k]],
                )
            },
{
    let ghost fv = file_views(files@);
    let n = files.len();
    let mut tags: Vec<u64> = Vec::new();
    let mut i: usize = 0;
    while i < n
        invariant
            i <= n == files@.len() <= 0xFFFFFFFF,
            fv == file_views(files@),
            tags@.len() == i,
            forall|j: int| 0 <= j < i ==> tags@[j] == sort_tags(fv)[j],
        decreases n - i,
    {
        let key = compute_sort_key(&files[i]);
        proof {
            assert(fv[i as int] == files@[i as int]@);
            assert(sort_key(fv[i as int]) <= 0x10000);
        }
        tags.push(key * 0x100000000 + i as u64);
        i += 1;
    }
    proof {
        assert(tags@ =~= sort_tags(fv));
    }
    sort_tags_exec(&mut tags);
    proof {
        broadcast use vstd::seq_lib::group_to_multiset_ensures;

        lemma_u64_le_total();
        sort_tags(fv).lemma_sort_by_ensures(u64_le());
        assert(tags@.len() == tags@.to_multiset().len());
        assert(sort_tags(fv).len() == sort_tags(fv).to_multiset().len());
        assert(tags@.len() == n);
    }
    let mut issues: Vec<Issue> = Vec::new();
    let mut k: usize = 0;
    while k < n
        invariant
            k <= n == files@.len() <= 0xFFFFFFFF,
            fv == file_views(files@),
            tags@.len() == n,
            tags@ == sort_tags(fv).sort_by(u64_le()),
            issues@.len() == k,
            forall|k2: int| 0 <= k2 < k ==> file_ok(#[trigger] fv[sorted_order(fv)[k2]]),
            forall|k2: int| 0 <= k2 < k ==> issue_views(issues@)[k2] == parsed_issues(fv)[k2],
        decreases n - k,
    {
        let t = tags[k];
        let idx = (t % 0x100000000) as usize;
        proof {
            lemma_tag_index(fv, k as int);
            assert(t as int % 0x100000000 == sorted_order(fv)[k as int]);
            assert(fv[idx as int] == files@[idx as int]@);
        }
        match parse_markdown_file(&files[idx]) {
            Ok(issue) => {
                proof {
                    assert(issue@ == issue_of(fv[idx as int]));
                    assert(issue_views(issues@.push(issue)) =~= issue_views(issues@).push(
                        issue@,
                    ));
                }
                issues.push(issue);
            },
            Err(cause) => {
                let msg = wrap_file_error(&files[idx].path, cause);
                proof {
                    assert(!file_ok(fv[idx as int]));
                    assert(!all_files_ok(fv));
                    assert(first_failure(fv, k as int));
                }
                return Err(msg);
            },
        }
        k += 1;
    }
    proof {
        assert forall|j: int| 0 <= j < fv.len() implies file_ok(#[trigger] fv[j]) by {
            lemma_order_covers(fv, j);
            let k0 = choose|k0: int| 0 <= k0 < fv.len() && #[trigger] sorted_order(fv)[k0] == j;
            assert(file_ok(fv[sorted_order(fv)[k0]]));
        }
        assert(issue_views(issues@) =~= parsed_issues(fv));
    }
    Ok(issues)
}

} // verus!
