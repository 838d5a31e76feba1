//! Proved laws of the parser and the assembler: how one line steps the
//! parse, folding, last-wins on a repeated name, header counts, the body
//! as a suffix of the input, and the round trip on the required date.

use vstd::prelude::*;

use crate::mail::{
    date_key, finish_pending, message_id_key, parse_result_matches, parsed, rfc2822_parse,
    spec_parse, EnronMail, Error, MailDate,
};
use crate::text::{
    first_occurrence, join_fragments, lemma_first_occurrence, lemma_first_occurrence_unique, trim,
};

verus! {

/// One line of input, ended by its line feed: the first line feed falls
/// right after `line`, which is returned whole, and the rest follows it.
proof fn lemma_parse_split(line: Seq<u8>, rest: Seq<u8>)
    requires
        !line.contains(10u8),
    ensures
        (line + seq![10u8] + rest).contains(10u8),
        first_occurrence(line + seq![10u8] + rest, 10u8) == line.len(),
        (line + seq![10u8] + rest).take(line.len() as int) == line,
        (line + seq![10u8] + rest).skip(line.len() as int + 1) == rest,
{
    let input = line + seq![10u8] + rest;
    assert(input[line.len() as int] == 10u8);
    assert forall|k: int| 0 <= k < line.len() implies input[k] != 10u8 by {
        assert(input[k] == line[k]);
        if line[k] == 10u8 {
            assert(line.contains(10u8));
        }
    }
    lemma_first_occurrence_unique(input, 10u8, line.len() as int);
    assert(input.take(line.len() as int) =~= line);
    assert(input.skip(line.len() as int + 1) =~= rest);
}

/// A blank line finalizes the in-progress header and ends the parse:
/// everything after the line is the body.
pub proof fn lemma_parse_step_blank(
    line: Seq<u8>,
    rest: Seq<u8>,
    pending: Option<(Seq<u8>, Seq<Seq<u8>>)>,
    acc: Map<Seq<u8>, Seq<u8>>,
)
    requires
        !line.contains(10u8),
        trim(line).len() == 0,
    ensures
        spec_parse(line + seq![10u8] + rest, pending, acc) == Ok::<
            (Seq<u8>, Map<Seq<u8>, Seq<u8>>),
            Seq<u8>,
        >((rest, finish_pending(pending, acc))),
{
    lemma_parse_split(line, rest);
}

/// A line with a colon finalizes the in-progress header and opens a new
/// one: name before the first colon, first fragment after it.
pub proof fn lemma_parse_step_header(
    line: Seq<u8>,
    rest: Seq<u8>,
    pending: Option<(Seq<u8>, Seq<Seq<u8>>)>,
    acc: Map<Seq<u8>, Seq<u8>>,
)
    requires
        !line.contains(10u8),
        trim(line).len() > 0,
        line.contains(58u8),
    ensures
        spec_parse(line + seq![10u8] + rest, pending, acc) == spec_parse(
            rest,
            Some(
                (
                    line.take(first_occurrence(line, 58u8)),
                    seq![line.skip(first_occurrence(line, 58u8) + 1)],
                ),
            ),
            finish_pending(pending, acc),
        ),
{
    lemma_parse_split(line, rest);
    lemma_first_occurrence(line, 58u8);
}

/// A line without a colon folds into the in-progress header as one more
/// fragment.
pub proof fn lemma_parse_step_fold(
    line: Seq<u8>,
    rest: Seq<u8>,
    name: Seq<u8>,
    fragments: Seq<Seq<u8>>,
    acc: Map<Seq<u8>, Seq<u8>>,
)
    requires
        !line.contains(10u8),
        trim(line).len() > 0,
        !line.contains(58u8),
    ensures
        spec_parse(line + seq![10u8] + rest, Some((name, fragments)), acc) == spec_parse(
            rest,
            Some((name, fragments.push(line))),
            acc,
        ),
{
    lemma_parse_split(line, rest);
}

/// A line without a colon before any header line is the parse's one
/// hard error, carrying that line.
pub proof fn lemma_parse_step_orphan(line: Seq<u8>, rest: Seq<u8>, acc: Map<Seq<u8>, Seq<u8>>)
    requires
        !line.contains(10u8),
        trim(line).len() > 0,
        !line.contains(58u8),
    ensures
        spec_parse(line + seq![10u8] + rest, None, acc) == Err::<
            (Seq<u8>, Map<Seq<u8>, Seq<u8>>),
            Seq<u8>,
        >(line),
{
    lemma_parse_split(line, rest);
}

/// Whatever header parsing returns as the body is a literal suffix of
/// the input: the unconsumed text after the blank-line separator, or
/// empty when input ran out first.
pub proof fn lemma_parse_body_suffix(
    input: Seq<u8>,
    pending: Option<(Seq<u8>, Seq<Seq<u8>>)>,
    acc: Map<Seq<u8>, Seq<u8>>,
)
    ensures
        spec_parse(input, pending, acc) matches Ok(p) ==> p.0.len() <= input.len() && p.0
            == input.skip(input.len() - p.0.len()),
    decreases input.len(),
{
    if !input.contains(10u8) {
        assert(input.skip(input.len() as int) =~= Seq::<u8>::empty());
    } else {
        lemma_first_occurrence(input, 10u8);
        let i = first_occurrence(input, 10u8);
        let line = input.take(i);
        let rest = input.skip(i + 1);
        if trim(line).len() == 0 {
            assert(input.skip(input.len() - rest.len()) =~= rest);
        } else if line.contains(58u8) {
            lemma_parse_body_suffix(
                rest,
                Some((line.take(first_occurrence(line, 58u8)), seq![
                    line.skip(first_occurrence(line, 58u8) + 1),
                ])),
                finish_pending(pending, acc),
            );
            match spec_parse(input, pending, acc) {
                Ok(p) => {
                    assert(rest.skip(rest.len() - p.0.len()) =~= input.skip(
                        input.len() - p.0.len(),
                    ));
                },
                Err(_) => {},
            }
        } else {
            match pending {
                None => {},
                Some((n, fs)) => {
                    lemma_parse_body_suffix(rest, Some((n, fs.push(line))), acc);
                    match spec_parse(input, pending, acc) {
                        Ok(p) => {
                            assert(rest.skip(rest.len() - p.0.len()) =~= input.skip(
                                input.len() - p.0.len(),
                            ));
                        },
                        Err(_) => {},
                    }
                },
            }
        }
    }
}

/// The header map that parsing builds has a finite domain, so its size
/// can be spoken of.
pub proof fn lemma_parse_finite(
    input: Seq<u8>,
    pending: Option<(Seq<u8>, Seq<Seq<u8>>)>,
    acc: Map<Seq<u8>, Seq<u8>>,
)
    requires
        acc.dom().finite(),
    ensures
        spec_parse(input, pending, acc) matches Ok(p) ==> p.1.dom().finite(),
    decreases input.len(),
{
    if !input.contains(10u8) {
    } else {
        lemma_first_occurrence(input, 10u8);
        let i = first_occurrence(input, 10u8);
        let line = input.take(i);
        let rest = input.skip(i + 1);
        if trim(line).len() == 0 {
        } else if line.contains(58u8) {
            lemma_parse_finite(
                rest,
                Some((line.take(first_occurrence(line, 58u8)), seq![
                    line.skip(first_occurrence(line, 58u8) + 1),
                ])),
                finish_pending(pending, acc),
            );
        } else {
            match pending {
                None => {},
                Some((n, fs)) => {
                    lemma_parse_finite(rest, Some((n, fs.push(line))), acc);
                },
            }
        }
    }
}

/// Folding: a header line `name: a` continued by the two folded lines
/// `b` and `c` and closed by a blank line yields the single header value
/// `trim(a) trim(b) trim(c)` under the trimmed name, whatever the
/// original indentation, and the text after the blank line is the body.
pub proof fn lemma_folding(name: Seq<u8>, a: Seq<u8>, b: Seq<u8>, c: Seq<u8>, tail: Seq<u8>)
    requires
        !name.contains(10u8),
        !name.contains(58u8),
        !a.contains(10u8),
        !b.contains(10u8),
        !b.contains(58u8),
        trim(b).len() > 0,
        !c.contains(10u8),
        !c.contains(58u8),
        trim(c).len() > 0,
    ensures
        ({
            let input = name + seq![58u8] + a + seq![10u8] + b + seq![10u8] + c + seq![10u8]
                + seq![10u8] + tail;
            parsed(input) == Ok::<(Seq<u8>, Map<Seq<u8>, Seq<u8>>), Seq<u8>>(
                (
                    tail,
                    Map::<Seq<u8>, Seq<u8>>::empty().insert(
                        trim(name),
                        trim(a) + seq![32u8] + trim(b) + seq![32u8] + trim(c),
                    ),
                ),
            )
        }),
{
    let input = name + seq![58u8] + a + seq![10u8] + b + seq![10u8] + c + seq![10u8] + seq![10u8]
        + tail;
    let line1 = name + seq![58u8] + a;
    let rest1 = b + seq![10u8] + (c + seq![10u8] + (seq![10u8] + tail));
    assert(input =~= line1 + seq![10u8] + rest1);
    assert forall|k: int| 0 <= k < line1.len() implies line1[k] != 10u8 by {
        if k < name.len() {
            assert(line1[k] == name[k]);
            if name[k] == 10u8 {
                assert(name.contains(10u8));
            }
        } else if k == name.len() {
            assert(line1[k] == 58u8);
        } else {
            assert(line1[k] == a[k - name.len() - 1]);
            if a[k - name.len() - 1] == 10u8 {
                assert(a.contains(10u8));
            }
        }
    }
    if line1.contains(10u8) {
        let k = choose|k: int| 0 <= k < line1.len() && line1[k] == 10u8;
        assert(line1[k] != 10u8);
    }
    assert(line1[name.len() as int] == 58u8);
    assert(line1.contains(58u8));
    crate::text::lemma_trim_nonempty(line1, name.len() as int);
    assert forall|k: int| 0 <= k < name.len() implies line1[k] != 58u8 by {
        assert(line1[k] == name[k]);
        if name[k] == 58u8 {
            assert(name.contains(58u8));
        }
    }
    lemma_first_occurrence_unique(line1, 58u8, name.len() as int);
    lemma_parse_step_header(line1, rest1, None, Map::empty());
    assert(line1.take(name.len() as int) =~= name);
    assert(line1.skip(name.len() as int + 1) =~= a);

    let pend1 = Some((name, seq![a]));
    let rest2 = c + seq![10u8] + (seq![10u8] + tail);
    assert(rest1 =~= b + seq![10u8] + rest2);
    lemma_parse_step_fold(b, rest2, name, seq![a], Map::empty());
    assert(seq![a].push(b) =~= seq![a, b]);

    let rest3 = seq![10u8] + tail;
    assert(rest2 =~= c + seq![10u8] + rest3);
    lemma_parse_step_fold(c, rest3, name, seq![a, b], Map::empty());
    assert(seq![a, b].push(c) =~= seq![a, b, c]);

    let blank = Seq::<u8>::empty();
    assert(rest3 =~= blank + seq![10u8] + tail);
    assert(!blank.contains(10u8));
    assert(trim(blank).len() == 0);
    lemma_parse_step_blank(blank, tail, Some((name, seq![a, b, c])), Map::empty());

    let fs = seq![a, b, c];
    assert(fs.drop_last() =~= seq![a, b]);
    assert(seq![a, b].drop_last() =~= seq![a]);
    assert(join_fragments(seq![a]) == trim(a));
    assert(join_fragments(seq![a, b]) == trim(a) + seq![32u8] + trim(b));
    assert(join_fragments(fs) == (trim(a) + seq![32u8] + trim(b)) + seq![32u8] + trim(c));
    assert((trim(a) + seq![32u8] + trim(b)) + seq![32u8] + trim(c) =~= trim(a) + seq![32u8] + trim(
        b,
    ) + seq![32u8] + trim(c));
}

/// Last wins: two header lines under the same name, closed by a blank
/// line, leave only the second occurrence's value in the map.
pub proof fn lemma_last_wins(name: Seq<u8>, v1: Seq<u8>, v2: Seq<u8>, tail: Seq<u8>)
    requires
        !name.contains(10u8),
        !name.contains(58u8),
        !v1.contains(10u8),
        !v2.contains(10u8),
    ensures
        ({
            let input = name + seq![58u8] + v1 + seq![10u8] + name + seq![58u8] + v2 + seq![10u8]
                + seq![10u8] + tail;
            parsed(input) == Ok::<(Seq<u8>, Map<Seq<u8>, Seq<u8>>), Seq<u8>>(
                (tail, Map::<Seq<u8>, Seq<u8>>::empty().insert(trim(name), trim(v2))),
            )
        }),
{
    let input = name + seq![58u8] + v1 + seq![10u8] + name + seq![58u8] + v2 + seq![10u8]
        + seq![10u8] + tail;
    let line1 = name + seq![58u8] + v1;
    let line2 = name + seq![58u8] + v2;
    let rest1 = line2 + seq![10u8] + (seq![10u8] + tail);
    assert(input =~= line1 + seq![10u8] + rest1);

    lemma_header_line_shape(name, v1);
    lemma_parse_step_header(line1, rest1, None, Map::empty());
    assert(line1.take(name.len() as int) =~= name);
    assert(line1.skip(name.len() as int + 1) =~= v1);

    let acc1 = Map::<Seq<u8>, Seq<u8>>::empty().insert(trim(name), trim(v1));
    let rest2 = seq![10u8] + tail;
    assert(rest1 =~= line2 + seq![10u8] + rest2);
    lemma_header_line_shape(name, v2);
    lemma_parse_step_header(line2, rest2, Some((name, seq![v1])), Map::empty());
    assert(line2.take(name.len() as int) =~= name);
    assert(line2.skip(name.len() as int + 1) =~= v2);
    assert(join_fragments(seq![v1]) == trim(v1));

    let blank = Seq::<u8>::empty();
    assert(rest2 =~= blank + seq![10u8] + tail);
    assert(trim(blank).len() == 0);
    lemma_parse_step_blank(blank, tail, Some((name, seq![v2])), acc1);
    assert(join_fragments(seq![v2]) == trim(v2));
    assert(acc1.insert(trim(name), trim(v2)) =~= Map::<Seq<u8>, Seq<u8>>::empty().insert(
        trim(name),
        trim(v2),
    ));
}

/// A line `name: value` with a clean name has no line feed, has its first
/// colon right after the name, and does not trim to empty.
proof fn lemma_header_line_shape(name: Seq<u8>, value: Seq<u8>)
    requires
        !name.contains(10u8),
        !name.contains(58u8),
        !value.contains(10u8),
    ensures
        !(name + seq![58u8] + value).contains(10u8),
        (name + seq![58u8] + value).contains(58u8),
        first_occurrence(name + seq![58u8] + value, 58u8) == name.len(),
        trim(name + seq![58u8] + value).len() > 0,
{
    let line = name + seq![58u8] + value;
    assert forall|k: int| 0 <= k < line.len() implies line[k] != 10u8 by {
        if k < name.len() {
            assert(line[k] == name[k]);
            if name[k] == 10u8 {
                assert(name.contains(10u8));
            }
        } else if k == name.len() {
            assert(line[k] == 58u8);
        } else {
            assert(line[k] == value[k - name.len() - 1]);
            if value[k - name.len() - 1] == 10u8 {
                assert(value.contains(10u8));
            }
        }
    }
    if line.contains(10u8) {
        let k = choose|k: int| 0 <= k < line.len() && line[k] == 10u8;
        assert(line[k] != 10u8);
    }
    assert(line[name.len() as int] == 58u8);
    assert(line.contains(58u8));
    crate::text::lemma_trim_nonempty(line, name.len() as int);
    assert forall|k: int| 0 <= k < name.len() implies line[k] != 58u8 by {
        assert(line[k] == name[k]);
        if name[k] == 58u8 {
            assert(name.contains(58u8));
        }
    }
    lemma_first_occurrence_unique(line, 58u8, name.len() as int);
}

/// Header count: when parsing succeeds with both required headers
/// present and a parseable date, the assembled message keeps exactly two
/// names fewer than the parsed map — `Message-ID` and `Date` — and its
/// body is what the parser handed back.
pub proof fn lemma_header_count(
    r: Result<EnronMail, Error>,
    path: Seq<char>,
    input: Seq<u8>,
    body: Seq<u8>,
    hm: Map<Seq<u8>, Seq<u8>>,
)
    requires
        parse_result_matches(r, path, input),
        parsed(input) == Ok::<(Seq<u8>, Map<Seq<u8>, Seq<u8>>), Seq<u8>>((body, hm)),
        hm.contains_key(message_id_key()),
        hm.contains_key(date_key()),
        rfc2822_parse(hm[date_key()]) is Some,
    ensures
        r matches Ok(m) && m.header@.dom().len() == hm.dom().len() - 2 && m.body@ == body
            && m.message_id@ == hm[message_id_key()],
{
    lemma_parse_finite(input, None, Map::empty());
    assert(message_id_key() != date_key()) by {
        assert(message_id_key().len() == 10);
        assert(date_key().len() == 4);
    }
    hm.lemma_remove_key_len(message_id_key());
    hm.remove(message_id_key()).lemma_remove_key_len(date_key());
}

/// Round trip on the required date: when the headers carry a
/// `Message-ID` and a `Date` whose text RFC-2822 parsing accepts,
/// assembling succeeds and the message's instant is the one parsed
/// directly from that text.
pub proof fn lemma_date_round_trip(
    r: Result<EnronMail, Error>,
    path: Seq<char>,
    input: Seq<u8>,
    body: Seq<u8>,
    hm: Map<Seq<u8>, Seq<u8>>,
    ts: i64,
    off: i32,
)
    requires
        parse_result_matches(r, path, input),
        parsed(input) == Ok::<(Seq<u8>, Map<Seq<u8>, Seq<u8>>), Seq<u8>>((body, hm)),
        hm.contains_key(message_id_key()),
        hm.contains_key(date_key()),
        rfc2822_parse(hm[date_key()]) == Some((ts, off)),
    ensures
        r matches Ok(m) && m.date == (MailDate { timestamp_secs: ts, offset_secs: off })
            && m.message_id@ == hm[message_id_key()] && m.path@ == path,
{
}

} // verus!
