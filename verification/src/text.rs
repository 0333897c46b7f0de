//! Text: the identifiers of both feeds, taken apart and compared as sequences of characters.

use vstd::prelude::*;
use vstd::string::StrSliceExecFns;
use vstd::string::StringExecFns;

verus! {

/// `String::push` appends the character at the end of the string.
pub assume_specification[ String::push ](target: &mut String, c: char)
    ensures
        final(target)@ == old(target)@.push(c),
;

/// The texts of a list of strings.
pub open spec fn texts(list: Seq<String>) -> Seq<Seq<char>> {
    Seq::new(list.len(), |i: int| list[i]@)
}

/// The text of an optional string slice.
pub open spec fn opt_text(value: Option<&str>) -> Option<Seq<char>> {
    match value {
        Some(s) => Some(s@),
        None => None,
    }
}

/// The text of an optional string.
pub open spec fn opt_string(value: Option<String>) -> Option<Seq<char>> {
    match value {
        Some(s) => Some(s@),
        None => None,
    }
}

/// The order of texts: the first character in which two texts differ decides by its code point,
/// and a proper prefix comes first.
pub open spec fn text_less(a: Seq<char>, b: Seq<char>) -> bool
    decreases a.len(),
{
    if b.len() == 0 {
        false
    } else if a.len() == 0 {
        true
    } else if a[0] == b[0] {
        text_less(a.drop_first(), b.drop_first())
    } else {
        (a[0] as int) < (b[0] as int)
    }
}

/// No text comes before itself.
pub proof fn text_order_irreflexive(a: Seq<char>)
    ensures
        !text_less(a, a),
    decreases a.len(),
{
    if a.len() > 0 {
        text_order_irreflexive(a.drop_first());
    }
}

/// The order of texts is transitive.
pub proof fn text_order_transitive(a: Seq<char>, b: Seq<char>, c: Seq<char>)
    requires
        text_less(a, b),
        text_less(b, c),
    ensures
        text_less(a, c),
    decreases a.len(),
{
    if a.len() > 0 && a[0] == b[0] && b[0] == c[0] {
        text_order_transitive(a.drop_first(), b.drop_first(), c.drop_first());
    }
}

/// Of two different texts one comes before the other.
pub proof fn text_order_total(a: Seq<char>, b: Seq<char>)
    ensures
        a == b || text_less(a, b) || text_less(b, a),
    decreases a.len(),
{
    if a.len() == 0 && b.len() == 0 {
        assert(a =~= b);
    } else if a.len() > 0 && b.len() > 0 && a[0] == b[0] {
        text_order_total(a.drop_first(), b.drop_first());
        if a.drop_first() == b.drop_first() {
            assert forall|i: int| 0 <= i < a.len() implies a[i] == b[i] by {
                if i > 0 {
                    assert(a[i] == a.drop_first()[i - 1]);
                    assert(b[i] == b.drop_first()[i - 1]);
                }
            }
            assert(a.len() == a.drop_first().len() + 1);
            assert(a =~= b);
        }
    }
}

/// The characters of `s`, in order.
pub fn chars_of(s: &str) -> (r: Vec<char>)
    ensures
        r@ == s@,
{
    let mut out: Vec<char> = Vec::new();
    for c in it: s.chars()
        invariant
            it.seq() == s@,
            out@ == s@.take(it.index()),
    {
        out.push(c);
    }
    out
}

/// Whether the two texts are equal.
pub fn text_eq(a: &str, b: &str) -> (r: bool)
    ensures
        r == (a@ == b@),
{
    let left = chars_of(a);
    let right = chars_of(b);
    if left.len() != right.len() {
        return false;
    }
    let mut i: usize = 0;
    while i < left.len()
        invariant
            i <= left.len(),
            left@ == a@,
            right@ == b@,
            left.len() == right.len(),
            forall|k: int| 0 <= k < i ==> left@[k] == right@[k],
        decreases left.len() - i,
    {
        if left[i] != right[i] {
            return false;
        }
        i = i + 1;
    }
    assert(a@ =~= b@);
    true
}

/// The code point of `c`.
fn char_code(c: char) -> (r: u32)
    ensures
        r == c as int,
{
    c as u32
}

/// Whether `a` comes before `b` in the order of texts.
pub fn text_precedes(a: &str, b: &str) -> (r: bool)
    ensures
        r == text_less(a@, b@),
{
    let left = chars_of(a);
    let right = chars_of(b);
    let mut i: usize = 0;
    assert(a@.skip(0) =~= a@);
    assert(b@.skip(0) =~= b@);
    while i < left.len() && i < right.len()
        invariant
            i <= left.len(),
            i <= right.len(),
            left@ == a@,
            right@ == b@,
            text_less(a@, b@) == text_less(a@.skip(i as int), b@.skip(i as int)),
        decreases left.len() - i,
    {
        let x: char = left[i];
        let y: char = right[i];
        if x != y {
            return char_code(x) < char_code(y);
        }
        assert(a@.skip(i as int).drop_first() =~= a@.skip(i + 1));
        assert(b@.skip(i as int).drop_first() =~= b@.skip(i + 1));
        i = i + 1;
    }
    i < right.len()
}

/// `s` without the copies of `suffix` at its end.
pub open spec fn strip_all(s: Seq<char>, suffix: Seq<char>) -> Seq<char>
    decreases s.len(),
{
    if 0 < suffix.len() <= s.len() && s.skip(s.len() - suffix.len()) == suffix {
        strip_all(s.take(s.len() - suffix.len()), suffix)
    } else {
        s
    }
}

/// The part of `s` after its last colon, all of `s` where it has none.
pub open spec fn last_segment(s: Seq<char>) -> Seq<char>
    decreases s.len(),
{
    if s.len() == 0 || s.last() == ':' {
        seq![]
    } else {
        last_segment(s.drop_last()).push(s.last())
    }
}

/// The last of the colon-separated parts of `s` that is not empty.
pub open spec fn reference_suffix(s: Seq<char>) -> Option<Seq<char>> {
    let trimmed = strip_all(s, seq![':']);
    if trimmed.len() == 0 {
        None
    } else {
        Some(last_segment(trimmed))
    }
}

/// The GTFS identifier that a SIRI reference stands for.
pub open spec fn idfm_id(s: Seq<char>) -> Option<Seq<char>> {
    match reference_suffix(s) {
        Some(suffix) => Some("IDFM:"@ + suffix),
        None => None,
    }
}

/// The place of the first double colon at or after `from`.
pub open spec fn double_colon(s: Seq<char>, from: int) -> Option<int>
    decreases s.len() - from,
{
    if from < 0 || from + 1 >= s.len() {
        None
    } else if s[from] == ':' && s[from + 1] == ':' {
        Some(from)
    } else {
        double_colon(s, from + 1)
    }
}

/// The trip key in a SIRI journey reference: what follows the first double colon, without the
/// location marks and then without the colons at its end, where anything is left.
pub open spec fn trip_key(s: Seq<char>) -> Option<Seq<char>> {
    match double_colon(s, 0) {
        Some(at) => {
            let key = strip_all(strip_all(s.skip(at + 2), ":LOC"@), seq![':']);
            if key.len() == 0 {
                None
            } else {
                Some(key)
            }
        },
        None => None,
    }
}

/// How many characters of the first `end` are left once the copies of `suffix` at the end of
/// them are gone.
fn stripped_len(chars: &Vec<char>, start: usize, end: usize, suffix: &Vec<char>) -> (r: usize)
    requires
        start <= end <= chars@.len(),
    ensures
        start <= r <= end,
        strip_all(chars@.subrange(start as int, end as int), suffix@) == chars@.subrange(
            start as int,
            r as int,
        ),
{
    let n = suffix.len();
    let mut at: usize = end;
    while n > 0 && at - start >= n
        invariant
            n == suffix@.len(),
            start <= at <= end <= chars@.len(),
            strip_all(chars@.subrange(start as int, end as int), suffix@) == strip_all(
                chars@.subrange(start as int, at as int),
                suffix@,
            ),
        ensures
            start <= at <= end <= chars@.len(),
            strip_all(chars@.subrange(start as int, end as int), suffix@) == chars@.subrange(
                start as int,
                at as int,
            ),
        decreases at,
    {
        let ghost here = chars@.subrange(start as int, at as int);
        let mut k: usize = 0;
        let from: usize = at - n;
        while k < n && chars[from + k] == suffix[k]
            invariant
                k <= n,
                n == suffix@.len(),
                from == at - n,
                start <= from,
                at <= end <= chars@.len(),
                forall|j: int| 0 <= j < k ==> chars@[from + j] == suffix@[j],
            ensures
                k <= n,
                forall|j: int| 0 <= j < k ==> chars@[from + j] == suffix@[j],
                k < n ==> chars@[from + k] != suffix@[k as int],
            decreases n - k,
        {
            k = k + 1;
        }
        if k < n {
            assert(here.skip(here.len() - n)[k as int] == chars@[from + k]);
            break;
        }
        assert(here.skip(here.len() - n) =~= suffix@);
        assert(here.take(here.len() - n) =~= chars@.subrange(start as int, from as int));
        at = from;
    }
    at
}

/// Where the last segment of the characters from `start` to `end` begins.
fn last_segment_start(chars: &Vec<char>, start: usize, end: usize) -> (r: usize)
    requires
        start <= end <= chars@.len(),
    ensures
        start <= r <= end,
        last_segment(chars@.subrange(start as int, end as int)) == chars@.subrange(
            r as int,
            end as int,
        ),
{
    let mut at: usize = end;
    assert(chars@.subrange(end as int, end as int) =~= Seq::<char>::empty());
    let ghost whole = chars@.subrange(start as int, end as int);
    assert(last_segment(whole) =~= last_segment(chars@.subrange(start as int, at as int))
        + chars@.subrange(at as int, end as int));
    while at > start && chars[at - 1] != ':'
        invariant
            start <= at <= end <= chars@.len(),
            whole == chars@.subrange(start as int, end as int),
            last_segment(whole) == last_segment(chars@.subrange(start as int, at as int))
                + chars@.subrange(at as int, end as int),
        ensures
            start <= at <= end,
            last_segment(whole) == chars@.subrange(at as int, end as int),
        decreases at,
    {
        let ghost here = chars@.subrange(start as int, at as int);
        assert(here.drop_last() =~= chars@.subrange(start as int, at - 1));
        assert(last_segment(here) + chars@.subrange(at as int, end as int) =~= last_segment(
            here.drop_last(),
        ) + chars@.subrange(at - 1, end as int));
        at = at - 1;
    }
    at
}

/// The part of an identifier after its last colon.
pub fn id_suffix(value: &str) -> (r: &str)
    ensures
        r@ == last_segment(value@),
{
    let chars = chars_of(value);
    let from = last_segment_start(&chars, 0, chars.len());
    assert(value@.subrange(0, value@.len() as int) =~= value@);
    value.substring_char(from, chars.len())
}

/// The last part of a SIRI reference that is not empty.
pub fn siri_reference_suffix(value: &str) -> (r: Option<&str>)
    ensures
        opt_text(r) == reference_suffix(value@),
{
    let chars = chars_of(value);
    let mut colon: Vec<char> = Vec::new();
    colon.push(':');
    let end = stripped_len(&chars, 0, chars.len(), &colon);
    assert(colon@ =~= seq![':']);
    assert(value@.subrange(0, value@.len() as int) =~= value@);
    if end == 0 {
        return None;
    }
    let from = last_segment_start(&chars, 0, end);
    Some(value.substring_char(from, end))
}

/// The GTFS identifier for a SIRI reference.
pub fn extract_idfm_id(value: &str) -> (r: Option<String>)
    ensures
        opt_string(r) == idfm_id(value@),
{
    match siri_reference_suffix(value) {
        Some(suffix) => {
            let mut id = "IDFM:".to_owned();
            id.append(suffix);
            Some(id)
        },
        None => None,
    }
}

/// The trip key in a SIRI journey reference.
pub fn extract_siri_trip_key(value: &str) -> (r: Option<&str>)
    ensures
        opt_text(r) == trip_key(value@),
{
    let chars = chars_of(value);
    let n = chars.len();
    let mut at: usize = 0;
    while at < n && !(at + 1 < n && chars[at] == ':' && chars[at + 1] == ':')
        invariant
            at <= n,
            n == chars@.len(),
            chars@ == value@,
            double_colon(value@, 0) == double_colon(value@, at as int),
        decreases n - at,
    {
        at = at + 1;
    }
    if at >= n {
        return None;
    }
    let start: usize = at + 2;
    let mark = chars_of(":LOC");
    let mut colon: Vec<char> = Vec::new();
    colon.push(':');
    assert(colon@ =~= seq![':']);
    let unmarked = stripped_len(&chars, start, n, &mark);
    let end = stripped_len(&chars, start, unmarked, &colon);
    assert(value@.subrange(start as int, n as int) =~= value@.skip(at + 2));
    if start == end {
        return None;
    }
    Some(value.substring_char(start, end))
}

/// Whether `s` begins with `prefix`.
pub open spec fn begins(s: Seq<char>, prefix: Seq<char>) -> bool {
    prefix.len() <= s.len() && s.take(prefix.len() as int) == prefix
}

/// Whether `needle` occurs in `s`.
pub open spec fn occurs(s: Seq<char>, needle: Seq<char>) -> bool {
    exists|at: int| 0 <= at <= s.len() && #[trigger] begins(s.skip(at), needle)
}

/// Whether `needle` stands at `at` in `chars`.
fn stands_at(chars: &Vec<char>, at: usize, needle: &Vec<char>) -> (r: bool)
    requires
        at <= chars@.len(),
    ensures
        r == begins(chars@.skip(at as int), needle@),
{
    let n = chars.len();
    if needle.len() > n - at {
        return false;
    }
    let mut k: usize = 0;
    while k < needle.len()
        invariant
            k <= needle@.len(),
            n == chars@.len(),
            at + needle@.len() <= n,
            forall|j: int| 0 <= j < k ==> chars@[at + j] == needle@[j],
        decreases needle@.len() - k,
    {
        if chars[at + k] != needle[k] {
            assert(chars@.skip(at as int).take(needle@.len() as int)[k as int] == chars@[at + k]);
            return false;
        }
        k = k + 1;
    }
    assert(chars@.skip(at as int).take(needle@.len() as int) =~= needle@);
    true
}

/// Whether `s` begins with `prefix`.
pub fn text_begins(s: &str, prefix: &str) -> (r: bool)
    ensures
        r == begins(s@, prefix@),
{
    let chars = chars_of(s);
    let wanted = chars_of(prefix);
    assert(s@.skip(0) =~= s@);
    stands_at(&chars, 0, &wanted)
}

/// Whether `needle` occurs in `s`.
pub fn text_occurs(s: &str, needle: &str) -> (r: bool)
    ensures
        r == occurs(s@, needle@),
{
    let chars = chars_of(s);
    let wanted = chars_of(needle);
    let mut at: usize = 0;
    loop
        invariant
            at <= chars@.len(),
            chars@ == s@,
            wanted@ == needle@,
            forall|j: int| 0 <= j < at ==> !begins(#[trigger] s@.skip(j), needle@),
        decreases chars@.len() - at,
    {
        if stands_at(&chars, at, &wanted) {
            return true;
        }
        if at == chars.len() {
            return false;
        }
        at = at + 1;
    }
}

/// The code point of `c`, with the ASCII capitals taken as small letters.
pub open spec fn folded(c: char) -> int {
    let code = c as int;
    if 65 <= code <= 90 {
        code + 32
    } else {
        code
    }
}

/// Whether two texts are equal but for the case of ASCII letters.
pub open spec fn equal_but_for_case(a: Seq<char>, b: Seq<char>) -> bool {
    a.len() == b.len() && forall|i: int|
        0 <= i < a.len() ==> #[trigger] folded(a[i]) == folded(b[i])
}

fn fold_char(c: char) -> (r: u32)
    ensures
        r == folded(c),
{
    let code = char_code(c);
    if 65 <= code && code <= 90 {
        code + 32
    } else {
        code
    }
}

/// Whether two texts are equal but for the case of ASCII letters.
pub fn text_eq_ignore_case(a: &str, b: &str) -> (r: bool)
    ensures
        r == equal_but_for_case(a@, b@),
{
    let left = chars_of(a);
    let right = chars_of(b);
    if left.len() != right.len() {
        return false;
    }
    let mut i: usize = 0;
    while i < left.len()
        invariant
            i <= left.len(),
            left@ == a@,
            right@ == b@,
            left.len() == right.len(),
            forall|k: int| 0 <= k < i ==> #[trigger] folded(left@[k]) == folded(right@[k]),
        decreases left.len() - i,
    {
        if fold_char(left[i]) != fold_char(right[i]) {
            assert(folded(a@[i as int]) != folded(b@[i as int]));
            return false;
        }
        i = i + 1;
    }
    true
}

/// Whether `c` has the Unicode property `White_Space`.
pub open spec fn is_white(c: char) -> bool {
    let code = c as int;
    ||| 0x9 <= code <= 0xd
    ||| code == 0x20
    ||| code == 0x85
    ||| code == 0xa0
    ||| code == 0x1680
    ||| 0x2000 <= code <= 0x200a
    ||| code == 0x2028
    ||| code == 0x2029
    ||| code == 0x202f
    ||| code == 0x205f
    ||| code == 0x3000
}

/// `s` without the white space at its start.
pub open spec fn trimmed_start(s: Seq<char>) -> Seq<char>
    decreases s.len(),
{
    if s.len() > 0 && is_white(s[0]) {
        trimmed_start(s.drop_first())
    } else {
        s
    }
}

/// `s` without the white space at its end.
pub open spec fn trimmed_end(s: Seq<char>) -> Seq<char>
    decreases s.len(),
{
    if s.len() > 0 && is_white(s.last()) {
        trimmed_end(s.drop_last())
    } else {
        s
    }
}

/// `s` without the white space at its two ends.
pub open spec fn trimmed(s: Seq<char>) -> Seq<char> {
    trimmed_end(trimmed_start(s))
}

fn char_is_white(c: char) -> (r: bool)
    ensures
        r == is_white(c),
{
    let code = char_code(c);
    (0x9 <= code && code <= 0xd) || code == 0x20 || code == 0x85 || code == 0xa0 || code == 0x1680
        || (0x2000 <= code && code <= 0x200a) || code == 0x2028 || code == 0x2029 || code == 0x202f
        || code == 0x205f || code == 0x3000
}

/// The text without the white space at its two ends.
pub fn text_trim(value: &str) -> (r: &str)
    ensures
        r@ == trimmed(value@),
{
    let chars = chars_of(value);
    let n = chars.len();
    let mut start: usize = 0;
    assert(value@.subrange(0, n as int) =~= value@);
    while start < n && char_is_white(chars[start])
        invariant
            start <= n,
            n == chars@.len(),
            chars@ == value@,
            trimmed_start(value@) == trimmed_start(value@.subrange(start as int, n as int)),
        decreases n - start,
    {
        assert(value@.subrange(start as int, n as int).drop_first() =~= value@.subrange(
            start + 1,
            n as int,
        ));
        start = start + 1;
    }
    let mut end: usize = n;
    while end > start && char_is_white(chars[end - 1])
        invariant
            start <= end <= n,
            n == chars@.len(),
            chars@ == value@,
            trimmed(value@) == trimmed_end(value@.subrange(start as int, end as int)),
        decreases end,
    {
        assert(value@.subrange(start as int, end as int).drop_last() =~= value@.subrange(
            start as int,
            end - 1,
        ));
        end = end - 1;
    }
    value.substring_char(start, end)
}

/// Whether an entity identifier keeps `c`: ASCII letters and digits, and three marks.
pub open spec fn is_entity_char(c: char) -> bool {
    let code = c as int;
    ||| 48 <= code <= 57
    ||| 65 <= code <= 90
    ||| 97 <= code <= 122
    ||| c == '-'
    ||| c == '_'
    ||| c == '.'
}

/// `s` with a dash for each character that an entity identifier does not keep.
pub open spec fn sanitized(s: Seq<char>) -> Seq<char> {
    Seq::new(
        s.len(),
        |i: int|
            if is_entity_char(s[i]) {
                s[i]
            } else {
                '-'
            },
    )
}

/// The text with a dash for each character that an entity identifier does not keep.
pub fn sanitize_entity_id(value: &str) -> (r: String)
    ensures
        r@ == sanitized(value@),
{
    let mut out = String::new();
    for c in it: value.chars()
        invariant
            it.seq() == value@,
            out@ == sanitized(value@).take(it.index()),
    {
        let code = char_code(c);
        let kept = (48 <= code && code <= 57) || (65 <= code && code <= 90) || (97 <= code && code
            <= 122) || c == '-' || c == '_' || c == '.';
        if kept {
            out.push(c);
        } else {
            out.push('-');
        }
        assert(out@ =~= sanitized(value@).take(it.index() + 1));
    }
    assert(sanitized(value@).take(value@.len() as int) =~= sanitized(value@));
    out
}

} // verus!
