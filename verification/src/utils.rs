//! Scans over the node identifiers of a graph, and the text file that holds
//! a list of them: one identifier per line, in decimal.

use crate::accessor::{GraphAccessor, GraphModel, NodeId, NodeType};
use crate::stats::is_kind;
use vstd::prelude::*;

verus! {

/// The node identifiers below `count`, in ascending order.
pub open spec fn node_ids(count: nat) -> Seq<NodeId> {
    Seq::new(count, |i: int| i as NodeId)
}

/// The nodes of kind `kind`, in ascending order.
pub open spec fn nodes_of_kind(m: GraphModel, kind: NodeType) -> Seq<NodeId> {
    node_ids(m.node_count()).filter(|v: NodeId| is_kind(m, v, kind))
}

/// `ids` is strictly ascending.
pub open spec fn ascending(ids: Seq<NodeId>) -> bool {
    forall|i: int, j: int| 0 <= i < j < ids.len() ==> ids[i] < ids[j]
}

/// Filtering a strictly ascending sequence keeps it strictly ascending, and
/// keeps exactly the elements that pass.
pub proof fn lemma_filter_ascending(ids: Seq<NodeId>, keep: spec_fn(NodeId) -> bool)
    requires
        ascending(ids),
    ensures
        ascending(ids.filter(keep)),
        forall|v: NodeId| #[trigger] ids.filter(keep).contains(v) ==> ids.contains(v) && keep(v),
        forall|v: NodeId| #[trigger] ids.contains(v) && keep(v) ==> ids.filter(keep).contains(v),
    decreases ids.len(),
{
    reveal(Seq::filter);
    if ids.len() > 0 {
        let front = ids.drop_last();
        let last = ids.last();
        lemma_filter_ascending(front, keep);
        let kept = ids.filter(keep);
        let kept_front = front.filter(keep);
        assert forall|v: NodeId| #[trigger] kept.contains(v) implies ids.contains(v) && keep(
            v,
        ) by {
            let k = choose|k: int| 0 <= k < kept.len() && kept[k] == v;
            if k < kept_front.len() {
                assert(kept_front[k] == v);
                assert(kept_front.contains(v));
                let at = choose|at: int| 0 <= at < front.len() && front[at] == v;
                assert(ids[at] == v);
            } else {
                assert(ids[ids.len() - 1] == v);
            }
        }
        assert forall|v: NodeId| #[trigger] ids.contains(v) && keep(v) implies kept.contains(
            v,
        ) by {
            let at = choose|at: int| 0 <= at < ids.len() && ids[at] == v;
            if at < front.len() {
                assert(front[at] == v);
                assert(front.contains(v));
                assert(kept_front.contains(v));
                let k = choose|k: int| 0 <= k < kept_front.len() && kept_front[k] == v;
                assert(kept[k] == v);
            } else {
                assert(kept[kept.len() - 1] == v);
            }
        }
        assert forall|i: int, j: int| 0 <= i < j < kept.len() implies kept[i] < kept[j] by {
            if j < kept_front.len() {
                assert(kept_front[i] == kept[i] && kept_front[j] == kept[j]);
            } else {
                assert(kept[j] == last);
                assert(kept_front[i] == kept[i]);
                assert(kept_front.contains(kept_front[i]));
                assert(front.contains(kept[i]));
                let at = choose|at: int| 0 <= at < front.len() && front[at] == kept[i];
                assert(ids[at] < ids[ids.len() - 1]);
            }
        }
    }
}

/// The nodes of a kind are listed in strictly ascending order, and a node is
/// listed exactly when it is of that kind.
pub proof fn lemma_nodes_of_kind(m: GraphModel, kind: NodeType)
    requires
        m.node_count() <= usize::MAX,
    ensures
        ascending(nodes_of_kind(m, kind)),
        forall|v: NodeId| nodes_of_kind(m, kind).contains(v) <==> is_kind(m, v, kind),
{
    let ids = node_ids(m.node_count());
    let keep = |v: NodeId| is_kind(m, v, kind);
    lemma_filter_ascending(ids, keep);
    assert forall|v: NodeId| is_kind(m, v, kind) implies nodes_of_kind(m, kind).contains(v) by {
        assert(ids[v as int] == v);
        assert(ids.contains(v) && keep(v));
    }
    assert forall|v: NodeId| nodes_of_kind(m, kind).contains(v) implies is_kind(m, v, kind) by {
        assert(ids.filter(keep).contains(v));
    }
}

/// The nodes of kind `node_type`, in ascending order.
pub fn filter_by_node_type<G: GraphAccessor>(graph: &G, node_type: NodeType) -> (found: Vec<NodeId>)
    ensures
        found@ == nodes_of_kind(graph@, node_type),
{
    let count = graph.node_count();
    let ghost keep = |v: NodeId| is_kind(graph@, v, node_type);
    let mut found: Vec<NodeId> = Vec::new();
    let mut node: usize = 0;
    proof {
        reveal(Seq::filter);
        assert(node_ids(0).filter(keep) =~= Seq::<NodeId>::empty());
    }
    while node < count
        invariant
            node <= count,
            count == graph@.node_count(),
            keep == (|v: NodeId| is_kind(graph@, v, node_type)),
            found@ == node_ids(node as nat).filter(keep),
        decreases count - node,
    {
        proof {
            assert(node_ids((node + 1) as nat) =~= node_ids(node as nat).push(node));
            node_ids(node as nat).lemma_filter_push(node, keep);
        }
        if graph.node_type(node) == node_type {
            found.push(node);
        }
        node += 1;
    }
    found
}

/// The byte of a line feed, which ends a line.
pub const LINE_FEED: u8 = 10;

/// The byte of a carriage return, which is dropped before a line feed.
pub const CARRIAGE_RETURN: u8 = 13;

/// The byte of a plus sign, which may stand before the digits.
pub const PLUS: u8 = 43;

/// The byte of the digit zero.
pub const ZERO: u8 = 48;

/// `byte` is a decimal digit.
pub open spec fn is_digit(byte: u8) -> bool {
    ZERO <= byte <= ZERO + 9
}

/// Every byte of `bytes` is a decimal digit.
pub open spec fn all_digits(bytes: Seq<u8>) -> bool {
    forall|k: int| 0 <= k < bytes.len() ==> is_digit(#[trigger] bytes[k])
}

/// The number that decimal digits stand for, most significant first.
pub open spec fn digits_value(digits: Seq<u8>) -> nat
    decreases digits.len(),
{
    if digits.len() == 0 {
        0
    } else {
        digits_value(digits.drop_last()) * 10 + (digits.last() - ZERO) as nat
    }
}

/// The decimal digits of `n` as bytes, most significant first, without
/// leading zeros.
pub open spec fn decimal_bytes(n: nat) -> Seq<u8>
    decreases n,
{
    if n < 10 {
        seq![(ZERO + n) as u8]
    } else {
        decimal_bytes(n / 10).push((ZERO + n % 10) as u8)
    }
}

/// The file that lists `ids`: each in decimal, each followed by a line feed.
pub open spec fn node_ids_bytes(ids: Seq<NodeId>) -> Seq<u8>
    decreases ids.len(),
{
    if ids.len() == 0 {
        Seq::empty()
    } else {
        node_ids_bytes(ids.drop_last()) + decimal_bytes(ids.last() as nat).push(LINE_FEED)
    }
}

/// The identifier that digits stand for: there must be at least one, and
/// the number must fit the machine.
pub open spec fn parse_digits(digits: Seq<u8>) -> Option<NodeId> {
    if digits.len() > 0 && all_digits(digits) && digits_value(digits) <= usize::MAX {
        Some(digits_value(digits) as NodeId)
    } else {
        None
    }
}

/// The identifier that one line stands for: digits, after an optional plus
/// sign, of a number that fits the machine; nothing else is an identifier.
pub open spec fn parse_line(line: Seq<u8>) -> Option<NodeId> {
    if line.len() > 0 && line[0] == PLUS {
        parse_digits(line.skip(1))
    } else {
        parse_digits(line)
    }
}

/// Where the line that starts at `from` ends: at the first line feed from
/// there on, or at the end of the text.
pub open spec fn line_end(text: Seq<u8>, from: int) -> int
    decreases text.len() - from,
{
    if from >= text.len() {
        text.len() as int
    } else if text[from] == LINE_FEED {
        from
    } else {
        line_end(text, from + 1)
    }
}

/// The line that starts at `from`, without its line feed and without a
/// carriage return right before that line feed.
pub open spec fn line_at(text: Seq<u8>, from: int) -> Seq<u8> {
    let end = line_end(text, from);
    if from < end < text.len() && text[end - 1] == CARRIAGE_RETURN {
        text.subrange(from, end - 1)
    } else {
        text.subrange(from, end)
    }
}

/// The identifiers listed from position `from` on, one per line; none if a
/// line is not an identifier. The last line need not end in a line feed.
pub open spec fn parse_from(text: Seq<u8>, from: int) -> Option<Seq<NodeId>>
    decreases text.len() + 1 - from,
{
    if from < 0 || from >= text.len() {
        Some(Seq::empty())
    } else {
        proof {
            lemma_line_end(text, from);
        }
        match (parse_line(line_at(text, from)), parse_from(text, line_end(text, from) + 1)) {
            (Some(id), Some(rest)) => Some(seq![id] + rest),
            _ => None,
        }
    }
}

/// The identifiers that a file lists; none if a line is not an identifier.
pub open spec fn parse_node_ids(text: Seq<u8>) -> Option<Seq<NodeId>> {
    parse_from(text, 0)
}

/// A line ends at or after its start and within the text, on a line feed if
/// inside the text, and holds no line feed.
pub proof fn lemma_line_end(text: Seq<u8>, from: int)
    requires
        0 <= from <= text.len(),
    ensures
        from <= line_end(text, from) <= text.len(),
        line_end(text, from) < text.len() ==> text[line_end(text, from)] == LINE_FEED,
        forall|k: int| from <= k < line_end(text, from) ==> #[trigger] text[k] != LINE_FEED,
    decreases text.len() - from,
{
    if from < text.len() && text[from] != LINE_FEED {
        lemma_line_end(text, from + 1);
    }
}

/// The first line feed at or after `from` is where the line ends.
pub proof fn lemma_line_ends_at(text: Seq<u8>, from: int, end: int)
    requires
        0 <= from <= end <= text.len(),
        forall|k: int| from <= k < end ==> #[trigger] text[k] != LINE_FEED,
        end < text.len() ==> text[end] == LINE_FEED,
    ensures
        line_end(text, from) == end,
    decreases end - from,
{
    if from < end {
        lemma_line_ends_at(text, from + 1, end);
    }
}

/// Appends the decimal digits of `n` to `out`.
fn push_decimal_bytes(n: usize, out: &mut Vec<u8>)
    ensures
        final(out)@ == old(out)@ + decimal_bytes(n as nat),
    decreases n,
{
    if n >= 10 {
        push_decimal_bytes(n / 10, out);
    }
    out.push(ZERO + (n % 10) as u8);
    proof {
        assert(out@ =~= old(out)@ + decimal_bytes(n as nat));
    }
}

/// The file that lists `node_ids`: each identifier in decimal on a line of
/// its own.
pub fn write_node_ids(node_ids: &Vec<NodeId>) -> (bytes: Vec<u8>)
    ensures
        bytes@ == node_ids_bytes(node_ids@),
{
    let mut bytes: Vec<u8> = Vec::new();
    let mut at: usize = 0;
    proof {
        assert(node_ids@.take(0) =~= Seq::<NodeId>::empty());
    }
    while at < node_ids.len()
        invariant
            at <= node_ids.len(),
            bytes@ == node_ids_bytes(node_ids@.take(at as int)),
        decreases node_ids.len() - at,
    {
        let ghost before = bytes@;
        push_decimal_bytes(node_ids[at], &mut bytes);
        bytes.push(LINE_FEED);
        proof {
            assert(node_ids@.take(at + 1).drop_last() =~= node_ids@.take(at as int));
            assert(node_ids@.take(at + 1).last() == node_ids@[at as int]);
            assert(bytes@ =~= before + decimal_bytes(node_ids@[at as int] as nat).push(LINE_FEED));
        }
        at += 1;
    }
    proof {
        assert(node_ids@.take(node_ids@.len() as int) =~= node_ids@);
    }
    bytes
}

/// The number that a longer run of digits stands for is no smaller than
/// the number its beginning stands for.
proof fn lemma_digits_value_grows(digits: Seq<u8>, upto: int)
    requires
        0 <= upto <= digits.len(),
        all_digits(digits),
    ensures
        digits_value(digits.take(upto)) <= digits_value(digits),
    decreases digits.len() - upto,
{
    if upto < digits.len() {
        lemma_digits_value_grows(digits, upto + 1);
        assert(digits.take(upto + 1).drop_last() =~= digits.take(upto));
        assert(is_digit(digits[upto]));
    } else {
        assert(digits.take(upto) =~= digits);
    }
}

/// The identifier that the bytes from `from` up to `to` stand for.
fn read_line(bytes: &[u8], from: usize, to: usize) -> (id: Option<NodeId>)
    requires
        from <= to <= bytes@.len(),
    ensures
        id == parse_line(bytes@.subrange(from as int, to as int)),
{
    let ghost line = bytes@.subrange(from as int, to as int);
    let start: usize = if from < to && bytes[from] == PLUS {
        from + 1
    } else {
        from
    };
    let ghost digits = bytes@.subrange(start as int, to as int);
    proof {
        if from < to && bytes@[from as int] == PLUS {
            assert(line[0] == PLUS);
            assert(line.skip(1) =~= digits);
        } else {
            if line.len() > 0 {
                assert(line[0] == bytes@[from as int]);
            }
            assert(line =~= digits);
        }
    }
    if start == to {
        return None;
    }
    let mut value: usize = 0;
    let mut at: usize = start;
    proof {
        assert(digits.take(0) =~= Seq::<u8>::empty());
    }
    while at < to
        invariant
            from <= start <= at <= to <= bytes@.len(),
            digits == bytes@.subrange(start as int, to as int),
            parse_line(bytes@.subrange(from as int, to as int)) == parse_digits(digits),
            all_digits(digits.take(at - start)),
            value == digits_value(digits.take(at - start)),
        decreases to - at,
    {
        let byte = bytes[at];
        proof {
            assert(digits[at - start] == byte);
            assert(digits.take(at - start + 1).drop_last() =~= digits.take(at - start));
            assert(digits.take(at - start + 1).last() == byte);
        }
        if byte < ZERO || byte > ZERO + 9 {
            proof {
                assert(!is_digit(digits[at - start]));
                assert(!all_digits(digits));
            }
            return None;
        }
        proof {
            assert forall|k: int| 0 <= k < at - start + 1 implies is_digit(
                #[trigger] digits.take(at - start + 1)[k],
            ) by {
                if k < at - start {
                    assert(digits.take(at - start)[k] == digits.take(at - start + 1)[k]);
                }
            }
        }
        let digit = (byte - ZERO) as usize;
        let grown = match value.checked_mul(10) {
            Some(tenfold) => tenfold.checked_add(digit),
            None => None,
        };
        match grown {
            Some(next) => {
                value = next;
            },
            None => {
                proof {
                    assert(digits_value(digits.take(at - start + 1)) == value * 10 + digit);
                    assert(value * 10 + digit > usize::MAX);
                    if all_digits(digits) {
                        lemma_digits_value_grows(digits, at - start + 1);
                    }
                    assert(!(all_digits(digits) && digits_value(digits) <= usize::MAX));
                }
                return None;
            },
        }
        at += 1;
    }
    proof {
        assert(digits.take(to - start) =~= digits);
    }
    Some(value)
}

/// The identifiers that a file lists, one per line: digits, after an
/// optional plus sign. A carriage return before a line feed is dropped, and
/// the last line need not end in a line feed. There is no list if a line is
/// empty, holds anything but digits, or names a number too large for the
/// machine.
pub fn read_node_ids(bytes: &[u8]) -> (node_ids: Option<Vec<NodeId>>)
    ensures
        match node_ids {
            Some(ids) => parse_node_ids(bytes@) == Some(ids@),
            None => parse_node_ids(bytes@) is None,
        },
{
    let mut ids: Vec<NodeId> = Vec::new();
    let mut from: usize = 0;
    let total = bytes.len();
    proof {
        match parse_from(bytes@, 0) {
            Some(rest) => {
                assert(ids@ + rest =~= rest);
            },
            None => {},
        }
    }
    while from < total
        invariant
            from <= total,
            total == bytes@.len(),
            parse_node_ids(bytes@) == match parse_from(bytes@, from as int) {
                Some(rest) => Some(ids@ + rest),
                None => None,
            },
        decreases total - from,
    {
        let mut end: usize = from;
        while end < total && bytes[end] != LINE_FEED
            invariant
                from <= end <= total,
                total == bytes@.len(),
                forall|k: int| from <= k < end ==> #[trigger] bytes@[k] != LINE_FEED,
            decreases total - end,
        {
            end += 1;
        }
        proof {
            lemma_line_ends_at(bytes@, from as int, end as int);
        }
        let stop: usize = if from < end && end < total && bytes[end - 1] == CARRIAGE_RETURN {
            end - 1
        } else {
            end
        };
        proof {
            assert(line_at(bytes@, from as int) == bytes@.subrange(from as int, stop as int));
        }
        match read_line(bytes, from, stop) {
            Some(id) => {
                let ghost before = ids@;
                ids.push(id);
                proof {
                    match parse_from(bytes@, end + 1) {
                        Some(rest) => {
                            assert(before + (seq![id] + rest) =~= ids@ + rest);
                        },
                        None => {},
                    }
                }
            },
            None => {
                return None;
            },
        }
        from = if end < total {
            end + 1
        } else {
            total
        };
    }
    proof {
        assert(ids@ + Seq::<NodeId>::empty() =~= ids@);
    }
    Some(ids)
}

/// The decimal digits of a number are digits, at least one, and stand for
/// that number.
pub proof fn lemma_decimal_bytes(n: nat)
    ensures
        decimal_bytes(n).len() >= 1,
        all_digits(decimal_bytes(n)),
        digits_value(decimal_bytes(n)) == n,
    decreases n,
{
    if n < 10 {
        let digits = decimal_bytes(n);
        assert(digits.drop_last() =~= Seq::<u8>::empty());
        assert(digits_value(digits.drop_last()) == 0);
    } else {
        lemma_decimal_bytes(n / 10);
        let front = decimal_bytes(n / 10);
        let digits = decimal_bytes(n);
        assert(digits.drop_last() =~= front);
        assert forall|k: int| 0 <= k < digits.len() implies is_digit(#[trigger] digits[k]) by {
            if k < front.len() {
                assert(digits[k] == front[k]);
            }
        }
    }
}

/// A file is complete: it is empty or ends in a line feed.
pub open spec fn ends_in_line_feed(text: Seq<u8>) -> bool {
    text.len() == 0 || text.last() == LINE_FEED
}

/// One more line after a complete file adds one identifier to its list.
proof fn lemma_parse_one_more_line(text: Seq<u8>, digits: Seq<u8>, from: int)
    requires
        ends_in_line_feed(text),
        0 <= from <= text.len(),
        digits.len() >= 1,
        all_digits(digits),
    ensures
        parse_from(text + digits.push(LINE_FEED), from) == match (
            parse_from(text, from),
            parse_digits(digits),
        ) {
            (Some(ids), Some(id)) => Some(ids.push(id)),
            _ => None,
        },
    decreases text.len() - from,
{
    let longer = text + digits.push(LINE_FEED);
    if from == text.len() {
        let end = (text.len() + digits.len()) as int;
        assert forall|k: int| from <= k < end implies #[trigger] longer[k] != LINE_FEED by {
            assert(longer[k] == digits[k - text.len()]);
            assert(is_digit(digits[k - text.len()]));
        }
        assert(longer[end] == LINE_FEED);
        lemma_line_ends_at(longer, from, end);
        assert(longer[end - 1] == digits[digits.len() - 1]);
        assert(is_digit(digits[digits.len() - 1]));
        assert(line_at(longer, from) =~= digits);
        assert(digits[0] != PLUS) by {
            assert(is_digit(digits[0]));
        }
        assert(parse_from(longer, end + 1) == Some(Seq::<NodeId>::empty()));
        match parse_digits(digits) {
            Some(id) => {
                assert(seq![id] + Seq::<NodeId>::empty() =~= Seq::<NodeId>::empty().push(id));
            },
            None => {},
        }
    } else {
        lemma_line_end(text, from);
        let end = line_end(text, from);
        assert(end < text.len()) by {
            if end == text.len() {
                assert(text[text.len() - 1] != LINE_FEED);
            }
        }
        assert forall|k: int| from <= k < end implies #[trigger] longer[k] != LINE_FEED by {
            assert(longer[k] == text[k]);
        }
        assert(longer[end] == text[end]);
        lemma_line_ends_at(longer, from, end);
        if from < end {
            assert(longer[end - 1] == text[end - 1]);
        }
        assert(line_at(longer, from) =~= line_at(text, from));
        lemma_parse_one_more_line(text, digits, end + 1);
        match (parse_line(line_at(text, from)), parse_from(text, end + 1), parse_digits(digits)) {
            (Some(first), Some(rest), Some(id)) => {
                assert(seq![first] + rest.push(id) =~= (seq![first] + rest).push(id));
            },
            _ => {},
        }
    }
}

/// The file that lists identifiers is complete.
proof fn lemma_node_ids_bytes_complete(ids: Seq<NodeId>)
    ensures
        ends_in_line_feed(node_ids_bytes(ids)),
{
    if ids.len() > 0 {
        let line = decimal_bytes(ids.last() as nat).push(LINE_FEED);
        assert(node_ids_bytes(ids).last() == line.last());
    }
}

/// What is written is read back: the file that lists identifiers is read
/// as the list of these identifiers.
pub proof fn lemma_write_then_read_restores(ids: Seq<NodeId>)
    ensures
        parse_node_ids(node_ids_bytes(ids)) == Some(ids),
    decreases ids.len(),
{
    if ids.len() > 0 {
        let front = ids.drop_last();
        let last = ids.last();
        lemma_write_then_read_restores(front);
        lemma_node_ids_bytes_complete(front);
        lemma_decimal_bytes(last as nat);
        lemma_parse_one_more_line(node_ids_bytes(front), decimal_bytes(last as nat), 0);
        assert(front.push(last) =~= ids);
    }
}

} // verus!
