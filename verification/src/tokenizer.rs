use crate::nesting::fresh;
use crate::node::{Node, NodeView, ParseError};
use crate::pattern::{captures_in, groups_within, regex_accepts, regex_captures, regex_pattern};
use crate::text::{
    chars_of, is_part_of, lemma_decimal_nonnegative, lemma_lines_single, lemma_part_of_part,
    lemma_part_single_line, lemma_trimmed_part, level_of, lines_of, parse_level, single_line,
    split_lines, string_of, trim, trimmed,
};
use regex::Regex;
use vstd::prelude::*;
use vstd::seq_lib::lemma_flatten_concat;

verus! {

/// The grammar of one line: a level, then a pointer between `@` signs or
/// nothing, then a tag, then the data that follows a space or nothing.
pub const LINE_PATTERN: &'static str =
    r"\s*(0|[1-9]+[0-9]*) (@[^@]+@ |\b)([A-Za-z0-9_]+)( [^\n\r]*|\b)";

/// The text of capture group `k` of a match, empty where the match has no such
/// group or the group took no part in it.
pub open spec fn group_text(groups: Seq<Option<Seq<char>>>, k: int) -> Seq<char> {
    if 0 <= k < groups.len() {
        match groups[k] {
            Some(text) => text,
            None => Seq::empty(),
        }
    } else {
        Seq::empty()
    }
}

/// The pointer that a pointer token holds: the token without the space that
/// parts it from the tag.
pub open spec fn pointer_of(token: Seq<char>) -> Seq<char> {
    if token.len() > 0 && token.last() == ' ' {
        token.drop_last()
    } else {
        token
    }
}

/// The record that one match of the line grammar stands for: group 1 is its
/// level, group 2 its pointer token, group 3 its tag, group 4 its data, which
/// is trimmed.
pub open spec fn record_of(groups: Seq<Option<Seq<char>>>) -> Result<NodeView, ParseError> {
    match level_of(group_text(groups, 1)) {
        Some(level) => Ok(
            NodeView {
                data: trimmed(group_text(groups, 4)),
                tag: group_text(groups, 3),
                pointer: pointer_of(group_text(groups, 2)),
                level,
                children: Seq::empty(),
            },
        ),
        None => Err(ParseError::Level),
    }
}

/// The records of a run of matches: one for each, in order, unless one of them
/// has no readable level, which fails the whole run.
pub open spec fn records_of(found: Seq<Seq<Option<Seq<char>>>>) -> Result<
    Seq<NodeView>,
    ParseError,
> {
    if forall|k: int| 0 <= k < found.len() ==> (#[trigger] record_of(found[k])) is Ok {
        Ok(Seq::new(found.len(), |k: int| record_of(found[k])->Ok_0))
    } else {
        Err(ParseError::Level)
    }
}

/// All matches of the line grammar in a run of lines, line after line.
pub open spec fn matches_in(lines: Seq<Seq<char>>) -> Seq<Seq<Option<Seq<char>>>> {
    lines.map_values(|line: Seq<char>| regex_captures(LINE_PATTERN@, line)).flatten()
}

/// The records of a document, in document order.
pub open spec fn tokenize(text: Seq<char>) -> Result<Seq<NodeView>, ParseError> {
    if regex_accepts(LINE_PATTERN@) {
        records_of(matches_in(lines_of(text)))
    } else {
        Err(ParseError::Pattern)
    }
}

/// What a tokenizer's result stands for.
pub open spec fn records_view(r: Result<Vec<Node>, ParseError>) -> Result<
    Seq<NodeView>,
    ParseError,
> {
    match r {
        Ok(nodes) => Ok(nodes.deep_view()),
        Err(e) => Err(e),
    }
}

/// Whether no text of a record holds a line feed.
pub open spec fn on_one_line(record: NodeView) -> bool {
    single_line(record.data) && single_line(record.tag) && single_line(record.pointer)
}

/// The matches in a run of lines are those of its first `i` lines followed by
/// those of the others.
pub proof fn lemma_matches_split(lines: Seq<Seq<char>>, i: int)
    requires
        0 <= i <= lines.len(),
    ensures
        matches_in(lines) == matches_in(lines.take(i)) + matches_in(lines.skip(i)),
{
    let f = |line: Seq<char>| regex_captures(LINE_PATTERN@, line);
    assert(lines.map_values(f) =~= lines.take(i).map_values(f) + lines.skip(i).map_values(f));
    lemma_flatten_concat(lines.take(i).map_values(f), lines.skip(i).map_values(f));
}

/// The matches in the first `i + 1` lines are those of the first `i` lines
/// followed by those of line `i`.
pub proof fn lemma_matches_next(lines: Seq<Seq<char>>, i: int)
    requires
        0 <= i < lines.len(),
    ensures
        matches_in(lines.take(i + 1)) == matches_in(lines.take(i)) + regex_captures(
            LINE_PATTERN@,
            lines[i],
        ),
{
    let f = |line: Seq<char>| regex_captures(LINE_PATTERN@, line);
    let head = lines.take(i + 1);
    lemma_matches_split(head, i);
    assert(head.take(i) =~= lines.take(i));
    assert(head.skip(i) =~= seq![lines[i]]);
    assert(seq![lines[i]].map_values(f) =~= seq![f(lines[i])]);
    seq![f(lines[i])].lemma_flatten_one_element();
}

/// The records of two runs of matches, one behind the other, are the records
/// of the first followed by those of the second; they fail if either fails.
pub proof fn lemma_records_concat(
    first: Seq<Seq<Option<Seq<char>>>>,
    second: Seq<Seq<Option<Seq<char>>>>,
)
    ensures
        records_of(first + second) == match (records_of(first), records_of(second)) {
            (Ok(x), Ok(y)) => Ok::<Seq<NodeView>, ParseError>(x + y),
            _ => Err::<Seq<NodeView>, ParseError>(ParseError::Level),
        },
{
    let both = first + second;
    if let Ok(x) = records_of(first) {
        if let Ok(y) = records_of(second) {
            assert forall|k: int| 0 <= k < both.len() implies (#[trigger] record_of(both[k])) is Ok by {
                if k < first.len() {
                    assert(record_of(first[k]) is Ok);
                } else {
                    assert(record_of(second[k - first.len()]) is Ok);
                }
            }
            assert(records_of(both)->Ok_0 =~= x + y);
        } else {
            let k = choose|k: int| 0 <= k < second.len() && !(#[trigger] record_of(second[k]) is Ok);
            assert(both[first.len() + k] == second[k]);
            assert(!(record_of(both[first.len() + k]) is Ok));
        }
    } else {
        let k = choose|k: int| 0 <= k < first.len() && !(#[trigger] record_of(first[k]) is Ok);
        assert(both[k] == first[k]);
        assert(!(record_of(both[k]) is Ok));
    }
}

/// The records of a document are at level 0 or deeper and have no children
/// yet.
pub proof fn lemma_tokenize_fresh(text: Seq<char>)
    ensures
        tokenize(text) matches Ok(records) ==> fresh(records),
{
    if let Ok(records) = tokenize(text) {
        let found = matches_in(lines_of(text));
        assert forall|i: int| 0 <= i < records.len() implies 0 <= (#[trigger] records[i]).level
            <= i32::MAX && records[i].children.len() == 0 by {
            assert(record_of(found[i]) is Ok);
            lemma_decimal_nonnegative(group_text(found[i], 1));
        }
    }
}

/// The texts of a record are cut out of the text in which its match was
/// found, so they hold no line feed where that text holds none.
pub proof fn lemma_records_on_one_line(found: Seq<Seq<Option<Seq<char>>>>, whole: Seq<char>)
    requires
        groups_within(found, whole),
        single_line(whole),
    ensures
        records_of(found) matches Ok(records) ==> forall|i: int|
            0 <= i < records.len() ==> on_one_line(#[trigger] records[i]),
{
    if let Ok(records) = records_of(found) {
        assert forall|i: int| 0 <= i < records.len() implies on_one_line(#[trigger] records[i]) by {
            let groups = found[i];
            assert(record_of(groups) is Ok);
            assert(Seq::<char>::empty() =~= whole.subrange(0, 0));
            assert forall|k: int| is_part_of(#[trigger] group_text(groups, k), whole) by {
                if 0 <= k < groups.len() {
                    assert(found[i][k] == groups[k]);
                }
            }
            let data = group_text(groups, 4);
            let token = group_text(groups, 2);
            lemma_trimmed_part(data);
            lemma_part_of_part(trimmed(data), data, whole);
            assert(is_part_of(pointer_of(token), token)) by {
                if token.len() > 0 && token.last() == ' ' {
                    assert(token.drop_last() =~= token.subrange(0, token.len() - 1));
                } else {
                    assert(token =~= token.subrange(0, token.len() as int));
                }
            }
            lemma_part_of_part(pointer_of(token), token, whole);
            lemma_part_single_line(records[i].data, whole);
            lemma_part_single_line(records[i].pointer, whole);
            lemma_part_single_line(records[i].tag, whole);
        }
    }
}

fn pointer_from(token: &str) -> (pointer: String)
    ensures
        pointer@ == pointer_of(token@),
{
    let chars = chars_of(token);
    let n = chars.len();
    if n > 0 && chars[n - 1] == ' ' {
        string_of(&chars, 0, n - 1)
    } else {
        assert(chars@.subrange(0, n as int) =~= chars@);
        string_of(&chars, 0, n)
    }
}

fn group_str(groups: &Vec<Option<String>>, k: usize) -> (text: &str)
    ensures
        text@ == group_text(groups.deep_view(), k as int),
{
    proof {
        reveal_strlit("");
    }
    if k < groups.len() {
        match &groups[k] {
            Some(s) => s.as_str(),
            None => "",
        }
    } else {
        ""
    }
}

/// Makes the record of one match from the texts of its capture groups.
pub fn node_from_groups(groups: &Vec<Option<String>>) -> (r: Result<Node, ParseError>)
    ensures
        match r {
            Ok(node) => record_of(groups.deep_view()) == Ok::<NodeView, ParseError>(node@),
            Err(e) => record_of(groups.deep_view()) == Err::<NodeView, ParseError>(e),
        },
{
    let level = match parse_level(group_str(groups, 1)) {
        Some(level) => level,
        None => {
            return Err(ParseError::Level);
        },
    };
    let data = trim(group_str(groups, 4));
    let pointer = pointer_from(group_str(groups, 2));
    Ok(Node::new(level, group_str(groups, 3), data.as_str(), pointer.as_str()))
}

/// Makes the records of a run of matches, in order. One match without a
/// readable level fails the run.
pub fn nodes_from_matches(found: &Vec<Vec<Option<String>>>) -> (r: Result<Vec<Node>, ParseError>)
    ensures
        records_view(r) == records_of(found.deep_view()),
{
    let ghost here = found.deep_view();
    let mut nodes: Vec<Node> = Vec::new();
    let mut k: usize = 0;
    proof {
        assert(nodes.deep_view() =~= records_of(here.take(0))->Ok_0);
    }
    while k < found.len()
        invariant
            k <= found.len(),
            here == found.deep_view(),
            records_of(here.take(k as int)) == Ok::<Seq<NodeView>, ParseError>(nodes.deep_view()),
        decreases found.len() - k,
    {
        let ghost done = here.take(k as int);
        let ghost records = nodes.deep_view();
        assert(here[k as int] == found[k as int].deep_view());
        proof {
            assert(here.take(k + 1) =~= done + seq![here[k as int]]);
            lemma_records_concat(done, seq![here[k as int]]);
            lemma_records_concat(here.take(k + 1), here.skip(k + 1));
            assert(here.take(k + 1) + here.skip(k + 1) =~= here);
        }
        match node_from_groups(&found[k]) {
            Ok(node) => {
                nodes.push(node);
                proof {
                    let one = seq![here[k as int]];
                    assert(record_of(one[0]) is Ok);
                    assert(records_of(one)->Ok_0 =~= seq![node@]);
                    assert(nodes.deep_view() =~= records + seq![node@]);
                }
            },
            Err(e) => {
                proof {
                    let one = seq![here[k as int]];
                    assert(!(record_of(one[0]) is Ok));
                }
                return Err(e);
            },
        }
        k += 1;
    }
    proof {
        assert(here.take(found.len() as int) =~= here);
    }
    Ok(nodes)
}

/// Tokenizes a document: every match of the line grammar in every line becomes
/// a record, in document order; lines without a match give none. One level
/// that cannot be read fails the whole document.
pub fn parse_into_nodes(contents: String) -> (r: Result<Vec<Node>, ParseError>)
    ensures
        records_view(r) == tokenize(contents@),
        r matches Ok(nodes) ==> fresh(nodes.deep_view()) && forall|i: int|
            0 <= i < nodes.len() ==> on_one_line(#[trigger] nodes[i]@),
{
    proof {
        lemma_tokenize_fresh(contents@);
        lemma_lines_single(contents@);
    }
    let re = match Regex::new(LINE_PATTERN) {
        Ok(re) => re,
        Err(_) => {
            return Err(ParseError::Pattern);
        },
    };
    let lines = split_lines(contents.as_str());
    let ghost all = lines.deep_view();
    let mut all_nodes: Vec<Node> = Vec::new();
    let mut i: usize = 0;
    proof {
        let none = matches_in(all.take(0));
        assert(none =~= Seq::empty()) by {
            let f = |line: Seq<char>| regex_captures(LINE_PATTERN@, line);
            assert(all.take(0).map_values(f) =~= Seq::empty());
        }
        assert(all_nodes.deep_view() =~= records_of(none)->Ok_0);
    }
    while i < lines.len()
        invariant
            i <= lines.len(),
            all == lines.deep_view(),
            all == lines_of(contents@),
            forall|k: int| 0 <= k < all.len() ==> single_line(#[trigger] all[k]),
            regex_accepts(LINE_PATTERN@),
            regex_pattern(re) == Some(LINE_PATTERN@),
            records_of(matches_in(all.take(i as int))) == Ok::<Seq<NodeView>, ParseError>(
                all_nodes.deep_view(),
            ),
            forall|k: int| 0 <= k < all_nodes.len() ==> on_one_line(#[trigger] all_nodes[k]@),
        decreases lines.len() - i,
    {
        let found = captures_in(&re, lines[i].as_str());
        let ghost before = matches_in(all.take(i as int));
        let ghost here = found.deep_view();
        let ghost earlier = all_nodes.deep_view();
        proof {
            assert(all[i as int] == lines[i as int]@);
            lemma_matches_next(all, i as int);
            lemma_matches_split(all, i + 1);
            lemma_records_concat(before, here);
            lemma_records_concat(before + here, matches_in(all.skip(i + 1)));
            lemma_records_on_one_line(here, all[i as int]);
        }
        let mut nodes = match nodes_from_matches(&found) {
            Ok(nodes) => nodes,
            Err(e) => {
                return Err(e);
            },
        };
        let ghost added = nodes.deep_view();
        let ghost held = all_nodes@;
        let ghost new = nodes@;
        all_nodes.append(&mut nodes);
        proof {
            assert(all_nodes@ == held + new);
            assert(all_nodes.deep_view() =~= earlier + added);
            assert forall|k: int| 0 <= k < all_nodes.len() implies on_one_line(
                #[trigger] all_nodes[k]@,
            ) by {
                if k < held.len() {
                    assert(all_nodes[k] == held[k]);
                } else {
                    assert(all_nodes[k] == new[k - held.len()]);
                    assert(added[k - held.len()] == new[k - held.len()]@);
                }
            }
        }
        i += 1;
    }
    proof {
        assert(all.take(lines.len() as int) =~= all);
    }
    Ok(all_nodes)
}

} // verus!
