//! What holds of references, keys and texts.

use crate::matching;
use crate::siri_models::Journey;
use crate::text;
use vstd::prelude::*;

verus! {

/// Whether a text holds no colon.
pub open spec fn is_plain(s: Seq<char>) -> bool {
    forall|i: int| 0 <= i < s.len() ==> #[trigger] s[i] != ':'
}

/// So many copies of a text.
pub open spec fn copies(s: Seq<char>, n: nat) -> Seq<char>
    decreases n,
{
    if n == 0 {
        seq![]
    } else {
        copies(s, (n - 1) as nat) + s
    }
}

/// The law of segments: what follows the last colon of a text is its last segment; a text without a
/// colon is its own.
pub proof fn last_segment_follows_the_last_colon(head: Seq<char>, tail: Seq<char>)
    requires
        is_plain(tail),
    ensures
        text::last_segment(head + seq![':'] + tail) == tail,
        text::last_segment(tail) == tail,
    decreases tail.len(),
{
    let s = head + seq![':'] + tail;
    if tail.len() == 0 {
        assert(s.last() == ':');
        assert(tail =~= seq![]);
    } else {
        let rest = tail.drop_last();
        last_segment_follows_the_last_colon(head, rest);
        assert(tail[tail.len() - 1] != ':');
        assert(s.drop_last() =~= head + seq![':'] + rest);
        assert(rest.push(tail.last()) =~= tail);
    }
}

proof fn copies_are_stripped(s: Seq<char>, mark: Seq<char>, n: nat)
    requires
        mark.len() > 0,
    ensures
        text::strip_all(s + copies(mark, n), mark) == text::strip_all(s, mark),
    decreases n,
{
    if n == 0 {
        assert(s + copies(mark, n) =~= s);
    } else {
        let less = copies(mark, (n - 1) as nat);
        let all = s + copies(mark, n);
        let at = all.len() - mark.len();
        copies_are_stripped(s, mark, (n - 1) as nat);
        assert(all.skip(at) =~= mark);
        assert(all.take(at) =~= s + less);
    }
}

/// The law of references: the suffix of one is the last of its parts between colons that is not
/// empty; it has none exactly if it holds nothing but colons.
pub proof fn reference_suffix_is_the_last_part(
    head: Seq<char>,
    part: Seq<char>,
    colons: nat,
)
    requires
        is_plain(part),
        part.len() > 0,
    ensures
        text::reference_suffix(head + seq![':'] + part + copies(seq![':'], colons)) == Some(part),
        text::reference_suffix(part + copies(seq![':'], colons)) == Some(part),
        text::reference_suffix(copies(seq![':'], colons)) is None,
        text::idfm_id(head + seq![':'] + part + copies(seq![':'], colons)) == Some(
            seq!['I', 'D', 'F', 'M', ':'] + part,
        ),
        text::idfm_id(part + copies(seq![':'], colons)) == Some(
            seq!['I', 'D', 'F', 'M', ':'] + part,
        ),
        text::idfm_id(copies(seq![':'], colons)) is None,
{
    reveal_strlit("IDFM:");
    assert("IDFM:"@ =~= seq!['I', 'D', 'F', 'M', ':']);
    let mark = seq![':'];
    let long = head + mark + part;
    copies_are_stripped(long, mark, colons);
    copies_are_stripped(part, mark, colons);
    copies_are_stripped(seq![], mark, colons);
    last_segment_follows_the_last_colon(head, part);
    assert(part[part.len() - 1] != ':');
    assert(long.skip(long.len() - 1) =~= seq![part.last()]);
    assert(part.skip(part.len() - 1) =~= seq![part.last()]);
    assert(seq![part.last()][0] != mark[0]);
    assert(Seq::<char>::empty() + copies(mark, colons) =~= copies(mark, colons));
}

/// The law of lines: the route of a journey is the last part of the reference of its line that is
/// not empty, under the prefix of the schedule.
pub proof fn lines_mean_their_last_part(
    journey: Journey,
    head: Seq<char>,
    part: Seq<char>,
    colons: nat,
)
    requires
        is_plain(part),
        part.len() > 0,
        journey.line == Some(head + seq![':'] + part + copies(seq![':'], colons)),
    ensures
        matching::route_of(journey) == Some(seq!['I', 'D', 'F', 'M', ':'] + part),
{
    reference_suffix_is_the_last_part(head, part, colons);
}

/// The law of lines: a journey without a reference of its line has no route.
pub proof fn no_line_is_no_route(journey: Journey)
    requires
        journey.line is None,
    ensures
        matching::route_of(journey) is None,
{
}

/// Whether a text holds two colons in a row.
pub open spec fn has_double_colon(s: Seq<char>) -> bool {
    exists|i: int| 0 <= i < s.len() - 1 && #[trigger] s[i] == ':' && s[i + 1] == ':'
}

/// Whether a text ends in another.
pub open spec fn ends_in(s: Seq<char>, tail: Seq<char>) -> bool {
    exists|head: Seq<char>| s == #[trigger] (head + tail)
}

proof fn double_colon_is_the_first(s: Seq<char>, from: int, at: int)
    requires
        0 <= from <= at < s.len() - 1,
        s[at] == ':',
        s[at + 1] == ':',
        forall|i: int| from <= i < at ==> !(#[trigger] s[i] == ':' && s[i + 1] == ':'),
    ensures
        text::double_colon(s, from) == Some(at),
    decreases s.len() - from,
{
    if from < at {
        assert(!(s[from] == ':' && s[from + 1] == ':'));
        double_colon_is_the_first(s, from + 1, at);
    }
}

proof fn no_double_colon_is_found(s: Seq<char>, from: int)
    requires
        0 <= from,
        !has_double_colon(s),
    ensures
        text::double_colon(s, from) is None,
    decreases s.len() - from,
{
    if from + 1 < s.len() {
        assert(!(s[from] == ':' && s[from + 1] == ':'));
        no_double_colon_is_found(s, from + 1);
    }
}

proof fn unmarked_is_whole(s: Seq<char>, mark: Seq<char>)
    requires
        !ends_in(s, mark),
    ensures
        text::strip_all(s, mark) == s,
{
    if 0 < mark.len() <= s.len() && s.skip(s.len() - mark.len()) == mark {
        assert(s =~= s.take(s.len() - mark.len()) + mark);
        assert(ends_in(s, mark));
    }
}

/// The law of trip keys: the key in a reference is what follows the first double colon, without the
/// location marks at its end, or else without the colons at its end.
pub proof fn trip_key_follows_the_double_colon(
    head: Seq<char>,
    key: Seq<char>,
    marks: nat,
    colons: nat,
)
    requires
        !has_double_colon(head),
        head.len() > 0 ==> head.last() != ':',
        key.len() > 0,
        key.last() != ':',
        !ends_in(key, seq![':', 'L', 'O', 'C']),
    ensures
        text::trip_key(
            head + seq![':', ':'] + (key + copies(seq![':', 'L', 'O', 'C'], marks)),
        ) == Some(key),
        text::trip_key(head + seq![':', ':'] + (key + copies(seq![':'], colons))) == Some(key),
{
    let loc = seq![':', 'L', 'O', 'C'];
    let colon = seq![':'];
    let at = head.len() as int;
    let located = key + copies(loc, marks);
    let closed = key + copies(colon, colons);
    reveal_strlit(":LOC");
    assert(":LOC"@ =~= loc);
    key_is_what_follows(head, located);
    key_is_what_follows(head, closed);
    copies_are_stripped(key, loc, marks);
    unmarked_is_whole(key, loc);
    copies_are_stripped(key, colon, colons);
    assert(!ends_in(key, colon)) by {
        if ends_in(key, colon) {
            let front = choose|front: Seq<char>| key == #[trigger] (front + colon);
            assert(key.last() == ':');
        }
    }
    unmarked_is_whole(key, colon);
    assert(!ends_in(closed, loc)) by {
        if colons == 0 {
            assert(closed =~= key);
        } else if ends_in(closed, loc) {
            let front = choose|front: Seq<char>| closed == #[trigger] (front + loc);
            assert(closed.last() == ':');
            assert((front + loc).last() == 'C');
        }
    }
    unmarked_is_whole(closed, loc);
}

proof fn key_is_what_follows(head: Seq<char>, rest: Seq<char>)
    requires
        !has_double_colon(head),
        head.len() > 0 ==> head.last() != ':',
    ensures
        text::double_colon(head + seq![':', ':'] + rest, 0) == Some(head.len() as int),
        (head + seq![':', ':'] + rest).skip(head.len() as int + 2) == rest,
{
    let s = head + seq![':', ':'] + rest;
    let at = head.len() as int;
    assert forall|i: int| 0 <= i < at implies !(#[trigger] s[i] == ':' && s[i + 1] == ':') by {
        assert(s[i] == head[i]);
        if i + 1 < at {
            assert(s[i + 1] == head[i + 1]);
            assert(!(head[i] == ':' && head[i + 1] == ':'));
        }
    }
    double_colon_is_the_first(s, 0, at);
    assert(s.skip(at + 2) =~= rest);
}

/// The law of trip keys: a reference has none without a double colon, and none where nothing but
/// location marks or colons follow it.
pub proof fn nothing_is_no_trip_key(
    reference: Seq<char>,
    head: Seq<char>,
    marks: nat,
    colons: nat,
)
    requires
        !has_double_colon(reference),
        !has_double_colon(head),
        head.len() > 0 ==> head.last() != ':',
    ensures
        text::trip_key(reference) is None,
        text::trip_key(head + seq![':', ':'] + copies(seq![':', 'L', 'O', 'C'], marks)) is None,
        text::trip_key(head + seq![':', ':'] + copies(seq![':'], colons)) is None,
{
    let loc = seq![':', 'L', 'O', 'C'];
    let colon = seq![':'];
    reveal_strlit(":LOC");
    assert(":LOC"@ =~= loc);
    no_double_colon_is_found(reference, 0);
    key_is_what_follows(head, copies(loc, marks));
    key_is_what_follows(head, copies(colon, colons));
    copies_are_stripped(seq![], loc, marks);
    copies_are_stripped(seq![], colon, colons);
    assert(Seq::<char>::empty() + copies(loc, marks) =~= copies(loc, marks));
    assert(Seq::<char>::empty() + copies(colon, colons) =~= copies(colon, colons));
    let closed = copies(colon, colons);
    assert(!ends_in(closed, loc)) by {
        if ends_in(closed, loc) {
            let front = choose|front: Seq<char>| closed == #[trigger] (front + loc);
            assert((front + loc).last() == 'C');
            assert(closed.last() == ':');
        }
    }
    unmarked_is_whole(closed, loc);
}

/// The law of names: the key of a journey is that in its name; a journey without a name has none.
pub proof fn names_give_the_key(journey: Journey)
    ensures
        journey.name matches Some(name) ==> matching::key_of(journey) == text::trip_key(name),
        journey.name is None ==> matching::key_of(journey) is None,
{
}

/// The law of the order of texts: the first character in which two texts differ decides, by its
/// code point, and a text comes before those that go on from it.
pub proof fn first_difference_decides(a: Seq<char>, b: Seq<char>, at: int)
    requires
        0 <= at <= a.len(),
        at <= b.len(),
        forall|i: int| 0 <= i < at ==> #[trigger] a[i] == b[i],
    ensures
        at < a.len() && at < b.len() && (a[at] as int) < (b[at] as int) ==> text::text_less(a, b)
            && !text::text_less(b, a),
        at == a.len() && at < b.len() ==> text::text_less(a, b) && !text::text_less(b, a),
        at == a.len() && at == b.len() ==> !text::text_less(a, b) && !text::text_less(b, a),
    decreases a.len(),
{
    if at > 0 {
        assert(a[0] == b[0]);
        let x = a.drop_first();
        let y = b.drop_first();
        assert forall|i: int| 0 <= i < at - 1 implies #[trigger] x[i] == y[i] by {
            assert(a[i + 1] == b[i + 1]);
        }
        first_difference_decides(x, y, at - 1);
    }
}

/// The law of prefixes: a text begins with another exactly if it is that text with something after
/// it.
pub proof fn beginnings_are_prefixes(s: Seq<char>, prefix: Seq<char>)
    ensures
        text::begins(s, prefix) <==> exists|tail: Seq<char>| s == #[trigger] (prefix + tail),
{
    if text::begins(s, prefix) {
        assert(s =~= prefix + s.skip(prefix.len() as int));
    }
    if exists|tail: Seq<char>| s == #[trigger] (prefix + tail) {
        let tail = choose|tail: Seq<char>| s == #[trigger] (prefix + tail);
        assert(s.take(prefix.len() as int) =~= prefix);
    }
}

/// The law of occurrences: a text occurs in another exactly if that is the text with something
/// before it and something after it.
pub proof fn occurrences_stand_between(s: Seq<char>, needle: Seq<char>)
    ensures
        text::occurs(s, needle) <==> exists|head: Seq<char>, tail: Seq<char>|
            s == #[trigger] (head + needle + tail),
{
    if text::occurs(s, needle) {
        let at = choose|at: int|
            0 <= at <= s.len() && #[trigger] text::begins(s.skip(at), needle);
        let head = s.take(at);
        let tail = s.skip(at).skip(needle.len() as int);
        let rest = s.skip(at);
        assert(rest =~= needle + tail) by {
            assert(rest.take(needle.len() as int) == needle);
            assert(rest =~= rest.take(needle.len() as int) + tail);
        }
        assert(s =~= head + rest);
        assert(s =~= head + needle + tail);
    }
    if exists|head: Seq<char>, tail: Seq<char>| s == #[trigger] (head + needle + tail) {
        let (head, tail) = choose|head: Seq<char>, tail: Seq<char>|
            s == #[trigger] (head + needle + tail);
        let at = head.len() as int;
        assert(s.skip(at).take(needle.len() as int) =~= needle);
        assert(text::begins(s.skip(at), needle));
    }
}

/// Whether a character is one of the white spaces of Unicode.
pub open spec fn is_blank(c: char) -> bool {
    ||| c == ' ' || c == '\t' || c == '\n' || c == '\r'
    ||| c as int == 0xb || c as int == 0xc || c as int == 0x85 || c as int == 0xa0
    ||| c as int == 0x1680 || 0x2000 <= c as int <= 0x200a
    ||| c as int == 0x2028 || c as int == 0x2029 || c as int == 0x202f
    ||| c as int == 0x205f || c as int == 0x3000
}

/// Whether a text holds nothing but white space.
pub open spec fn are_blank(s: Seq<char>) -> bool {
    forall|i: int| 0 <= i < s.len() ==> is_blank(#[trigger] s[i])
}

/// The law of trimming: what stands between the white space at the two ends of a text is what
/// trimming leaves of it.
pub proof fn trimming_takes_blanks_away(before: Seq<char>, core: Seq<char>, after: Seq<char>)
    requires
        are_blank(before),
        are_blank(after),
        core.len() > 0 ==> !is_blank(core[0]) && !is_blank(core.last()),
    ensures
        text::trimmed(before + core + after) == core,
{
    if core.len() > 0 {
        start_is_trimmed(before, core + after);
        assert(before + core + after =~= before + (core + after));
        end_is_trimmed(core, after);
    } else {
        start_is_trimmed(before + after, seq![]);
        assert(before + core + after =~= before + after);
        assert((before + after) + Seq::<char>::empty() =~= before + after);
        assert(core =~= seq![]);
        assert(text::trimmed_end(seq![]) =~= seq![]);
    }
}

proof fn start_is_trimmed(before: Seq<char>, rest: Seq<char>)
    requires
        are_blank(before),
        rest.len() > 0 ==> !is_blank(rest[0]),
    ensures
        text::trimmed_start(before + rest) == rest,
    decreases before.len(),
{
    let s = before + rest;
    if before.len() == 0 {
        assert(s =~= rest);
    } else {
        assert(is_blank(before[0]));
        assert(s[0] == before[0]);
        assert(s.drop_first() =~= before.drop_first() + rest);
        start_is_trimmed(before.drop_first(), rest);
    }
}

proof fn end_is_trimmed(rest: Seq<char>, after: Seq<char>)
    requires
        are_blank(after),
        rest.len() > 0 ==> !is_blank(rest.last()),
    ensures
        text::trimmed_end(rest + after) == rest,
    decreases after.len(),
{
    let s = rest + after;
    if after.len() == 0 {
        assert(s =~= rest);
    } else {
        assert(is_blank(after[after.len() - 1]));
        assert(s.last() == after.last());
        assert(s.drop_last() =~= rest + after.drop_last());
        end_is_trimmed(rest, after.drop_last());
    }
}

/// The law of entity identifiers: ASCII letters and digits, dashes, underscores and dots stay, each
/// other character becomes a dash.
pub proof fn entity_ids_keep_plain_characters(s: Seq<char>, i: int)
    requires
        0 <= i < s.len(),
    ensures
        text::sanitized(s).len() == s.len(),
        'a' <= s[i] <= 'z' || 'A' <= s[i] <= 'Z' || '0' <= s[i] <= '9' || s[i] == '_' || s[i] == '.'
            || s[i] == '-' ==> text::sanitized(s)[i] == s[i],
        !('a' <= s[i] <= 'z' || 'A' <= s[i] <= 'Z' || '0' <= s[i] <= '9' || s[i] == '_' || s[i]
            == '.' || s[i] == '-') ==> text::sanitized(s)[i] == '-',
{
}

} // verus!
