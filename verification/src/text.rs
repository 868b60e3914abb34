//! Strings as sequences of characters.

use vstd::prelude::*;

verus! {

/// `String::push` of std: appends the given char to the end of the string.
pub assume_specification[ String::push ](s: &mut String, c: char)
    ensures
        final(s)@ == old(s)@.push(c),
;

/// The decimal digit of a number below ten.
pub open spec fn digit_char(d: int) -> char {
    if d == 0 {
        '0'
    } else if d == 1 {
        '1'
    } else if d == 2 {
        '2'
    } else if d == 3 {
        '3'
    } else if d == 4 {
        '4'
    } else if d == 5 {
        '5'
    } else if d == 6 {
        '6'
    } else if d == 7 {
        '7'
    } else if d == 8 {
        '8'
    } else {
        '9'
    }
}

/// A number in decimal notation.
pub open spec fn decimal_text(n: nat) -> Seq<char>
    decreases n,
{
    if n < 10 {
        seq![digit_char(n as int)]
    } else {
        decimal_text(n / 10).push(digit_char((n % 10) as int))
    }
}

/// The characters of a string.
pub fn chars_of(s: &str) -> (v: Vec<char>)
    ensures
        v@ == s@,
{
    let mut v: Vec<char> = Vec::new();
    for c in it: s.chars()
        invariant
            v@ == it.seq().take(it.index()),
            it.seq() == s@,
    {
        v.push(c);
    }
    assert(v@ =~= s@);
    v
}

/// The string that consists of `chars`.
pub fn string_of(chars: &[char]) -> (s: String)
    ensures
        s@ == chars@,
{
    let mut s = String::new();
    let mut i: usize = 0;
    while i < chars.len()
        invariant
            i <= chars@.len(),
            s@ == chars@.take(i as int),
        decreases chars@.len() - i,
    {
        s.push(chars[i]);
        i = i + 1;
        assert(chars@.take(i as int) =~= chars@.take(i - 1).push(chars@[i - 1]));
    }
    assert(s@ =~= chars@);
    s
}

/// The decimal digit of a number below ten.
pub fn digit(d: u64) -> (c: char)
    requires
        d < 10,
    ensures
        c == digit_char(d as int),
{
    match d {
        0 => '0',
        1 => '1',
        2 => '2',
        3 => '3',
        4 => '4',
        5 => '5',
        6 => '6',
        7 => '7',
        8 => '8',
        _ => '9',
    }
}

/// A number in decimal notation.
pub fn decimal(n: u64) -> (s: String)
    ensures
        s@ == decimal_text(n as nat),
    decreases n,
{
    let mut s = if n < 10 {
        String::new()
    } else {
        decimal(n / 10)
    };
    s.push(digit(n % 10));
    assert(s@ =~= decimal_text(n as nat));
    s
}

/// Whether `a` comes before `b` in the order of strings: character by
/// character, by code point, a beginning before what it begins.
pub open spec fn text_before(a: Seq<char>, b: Seq<char>) -> bool
    decreases a.len(),
{
    if b.len() == 0 {
        false
    } else if a.len() == 0 {
        true
    } else if a[0] != b[0] {
        (a[0] as int) < (b[0] as int)
    } else {
        text_before(a.drop_first(), b.drop_first())
    }
}

pub proof fn lemma_text_before_irreflexive(a: Seq<char>)
    ensures
        !text_before(a, a),
    decreases a.len(),
{
    if a.len() > 0 {
        lemma_text_before_irreflexive(a.drop_first());
    }
}

pub proof fn lemma_text_before_transitive(a: Seq<char>, b: Seq<char>, c: Seq<char>)
    requires
        text_before(a, b),
        text_before(b, c),
    ensures
        text_before(a, c),
    decreases a.len(),
{
    if a.len() > 0 && a[0] == b[0] && b[0] == c[0] {
        lemma_text_before_transitive(a.drop_first(), b.drop_first(), c.drop_first());
    }
}

pub proof fn lemma_text_before_total(a: Seq<char>, b: Seq<char>)
    ensures
        text_before(a, b) || text_before(b, a) || a == b,
    decreases a.len(),
{
    if a.len() > 0 && b.len() > 0 {
        if a[0] == b[0] {
            lemma_text_before_total(a.drop_first(), b.drop_first());
            if a.drop_first() == b.drop_first() {
                assert(a =~= seq![a[0]] + a.drop_first());
                assert(b =~= seq![b[0]] + b.drop_first());
            }
        }
    } else {
        assert(a.len() == 0 && b.len() == 0 ==> a =~= b);
    }
}

/// Whether two strings are equal.
pub fn same_text(a: &str, b: &str) -> (r: bool)
    ensures
        r == (a@ == b@),
{
    if a.len() != b.len() {
        return false;
    }
    let x = chars_of(a);
    let y = chars_of(b);
    if x.len() != y.len() {
        return false;
    }
    let mut i: usize = 0;
    while i < x.len()
        invariant
            i <= x@.len(),
            x@ == a@,
            y@ == b@,
            x@.len() == y@.len(),
            forall|j: int| 0 <= j < i ==> x@[j] == y@[j],
        decreases x@.len() - i,
    {
        if x[i] != y[i] {
            return false;
        }
        i = i + 1;
    }
    assert(x@ =~= y@);
    true
}

/// The number of a character.
pub fn code_point(c: char) -> (n: u32)
    ensures
        n == c as int,
{
    c as u32
}

/// Whether `a` comes before `b` in the order of strings.
pub fn comes_before(a: &str, b: &str) -> (r: bool)
    ensures
        r == text_before(a@, b@),
{
    let x = chars_of(a);
    let y = chars_of(b);
    let mut i: usize = 0;
    assert(x@.skip(0) =~= x@);
    assert(y@.skip(0) =~= y@);
    while i < x.len() && i < y.len()
        invariant
            i <= x@.len(),
            i <= y@.len(),
            x@ == a@,
            y@ == b@,
            text_before(a@, b@) == text_before(x@.skip(i as int), y@.skip(i as int)),
        decreases x@.len() - i,
    {
        if x[i] != y[i] {
            return code_point(x[i]) < code_point(y[i]);
        }
        assert(x@.skip(i as int).drop_first() =~= x@.skip(i + 1));
        assert(y@.skip(i as int).drop_first() =~= y@.skip(i + 1));
        i = i + 1;
    }
    i < y.len()
}

/// `a` followed by `b`.
pub fn joined(a: &str, b: &str) -> (s: String)
    ensures
        s@ == a@ + b@,
{
    let mut s = a.to_owned();
    s.append(b);
    s
}

/// The words of `text` so far: those that are complete, and the one that is
/// still open. A word is an unbroken run of characters that are kept.
pub open spec fn split_so_far(text: Seq<char>, keep: Seq<bool>) -> (Seq<Seq<char>>, Seq<char>)
    decreases text.len(),
{
    if text.len() == 0 {
        (Seq::empty(), Seq::empty())
    } else {
        let (done, open) = split_so_far(text.drop_last(), keep.drop_last());
        if keep.last() {
            (done, open.push(text.last()))
        } else if open.len() > 0 {
            (done.push(open), Seq::empty())
        } else {
            (done, open)
        }
    }
}

/// The unbroken runs of characters that are kept.
pub open spec fn runs(text: Seq<char>, keep: Seq<bool>) -> Seq<Seq<char>> {
    let (done, open) = split_so_far(text, keep);
    if open.len() > 0 {
        done.push(open)
    } else {
        done
    }
}

/// The strings as their views.
pub open spec fn texts_of(strings: Seq<String>) -> Seq<Seq<char>> {
    strings.map_values(|s: String| s@)
}

/// The runs are never empty, and they hold exactly the characters that are
/// kept, in order.
pub proof fn lemma_runs(text: Seq<char>, keep: Seq<bool>)
    requires
        text.len() == keep.len(),
    ensures
        forall|i: int|
            0 <= i < runs(text, keep).len() ==> (#[trigger] runs(text, keep)[i]).len() > 0,
        runs(text, keep).flatten() == kept_chars(text, keep),
{
    lemma_split_so_far(text, keep);
    let (done, open) = split_so_far(text, keep);
    if open.len() > 0 {
        lemma_flatten_push(done, open);
    } else {
        assert(done.flatten() + open =~= done.flatten());
    }
}

/// The characters that are kept.
pub open spec fn kept_chars(text: Seq<char>, keep: Seq<bool>) -> Seq<char>
    decreases text.len(),
{
    if text.len() == 0 {
        Seq::empty()
    } else {
        let before = kept_chars(text.drop_last(), keep.drop_last());
        if keep.last() {
            before.push(text.last())
        } else {
            before
        }
    }
}

proof fn lemma_flatten_push(words: Seq<Seq<char>>, word: Seq<char>)
    ensures
        words.push(word).flatten() == words.flatten() + word,
    decreases words.len(),
{
    let all = words.push(word);
    if words.len() == 0 {
        assert(all.drop_first() =~= Seq::empty());
        assert(all.flatten() =~= word + Seq::<Seq<char>>::empty().flatten());
        assert(words.flatten() =~= Seq::empty());
    } else {
        assert(all.drop_first() =~= words.drop_first().push(word));
        lemma_flatten_push(words.drop_first(), word);
        assert(all.flatten() =~= words.flatten() + word);
    }
}

proof fn lemma_split_so_far(text: Seq<char>, keep: Seq<bool>)
    requires
        text.len() == keep.len(),
    ensures
        ({
            let (done, open) = split_so_far(text, keep);
            &&& forall|i: int| 0 <= i < done.len() ==> (#[trigger] done[i]).len() > 0
            &&& done.flatten() + open == kept_chars(text, keep)
        }),
    decreases text.len(),
{
    let (done, open) = split_so_far(text, keep);
    if text.len() == 0 {
        assert(done.flatten() + open =~= Seq::empty());
    } else {
        let (before, was_open) = split_so_far(text.drop_last(), keep.drop_last());
        lemma_split_so_far(text.drop_last(), keep.drop_last());
        if keep.last() {
            assert(done.flatten() + open =~= (before.flatten() + was_open).push(text.last()));
        } else if was_open.len() > 0 {
            lemma_flatten_push(before, was_open);
            assert(done.flatten() + open =~= before.flatten() + was_open);
        }
    }
}

/// Cut a text into the runs of characters that are kept.
pub fn split_runs(text: &[char], keep: &[bool]) -> (words: Vec<String>)
    requires
        text@.len() == keep@.len(),
    ensures
        texts_of(words@) == runs(text@, keep@),
{
    let mut words: Vec<String> = Vec::new();
    let mut open: Vec<char> = Vec::new();
    let mut i: usize = 0;
    assert(texts_of(words@) =~= Seq::empty());
    while i < text.len()
        invariant
            i <= text@.len() == keep@.len(),
            (texts_of(words@), open@) == split_so_far(text@.take(i as int), keep@.take(i as int)),
        decreases text@.len() - i,
    {
        let ghost before = words@;
        assert(text@.take(i + 1).drop_last() =~= text@.take(i as int));
        assert(keep@.take(i + 1).drop_last() =~= keep@.take(i as int));
        if keep[i] {
            open.push(text[i]);
        } else if open.len() > 0 {
            words.push(string_of(open.as_slice()));
            assert(texts_of(words@) =~= texts_of(before).push(open@));
            open = Vec::new();
        }
        i = i + 1;
    }
    assert(text@.take(i as int) =~= text@);
    assert(keep@.take(i as int) =~= keep@);
    if open.len() > 0 {
        let ghost before = words@;
        words.push(string_of(open.as_slice()));
        assert(texts_of(words@) =~= texts_of(before).push(open@));
    }
    words
}

/// Whether a character is white space in the sense of Unicode: whether it has the
/// property `White_Space`.
pub open spec fn whitespace(c: char) -> bool {
    let u = c as u32;
    ||| 0x9 <= u <= 0xd
    ||| u == 0x20
    ||| u == 0x85
    ||| u == 0xa0
    ||| u == 0x1680
    ||| 0x2000 <= u <= 0x200a
    ||| 0x2028 <= u <= 0x2029
    ||| u == 0x202f
    ||| u == 0x205f
    ||| u == 0x3000
}

/// `char::is_whitespace` of std tells whether a character has the property
/// `White_Space` of Unicode.
pub assume_specification[ char::is_whitespace ](c: char) -> (b: bool)
    ensures
        b == whitespace(c),
;

/// Which characters are not white space.
pub open spec fn visible(text: Seq<char>) -> Seq<bool> {
    text.map_values(|c: char| !whitespace(c))
}

/// There is nothing but white space.
pub open spec fn blank(text: Seq<char>) -> bool {
    forall|i: int| 0 <= i < text.len() ==> whitespace(#[trigger] text[i])
}

/// Which characters are not white space.
fn find_visible(text: &Vec<char>) -> (keep: Vec<bool>)
    ensures
        keep@ == visible(text@),
{
    let mut keep: Vec<bool> = Vec::new();
    let mut i: usize = 0;
    while i < text.len()
        invariant
            i <= text@.len(),
            keep@ == visible(text@).take(i as int),
        decreases text@.len() - i,
    {
        keep.push(!text[i].is_whitespace());
        i = i + 1;
        assert(keep@ =~= visible(text@).take(i as int));
    }
    assert(keep@ =~= visible(text@));
    keep
}

/// Whether there is nothing but white space.
pub fn is_blank(text: &str) -> (b: bool)
    ensures
        b == blank(text@),
{
    let chars = chars_of(text);
    let mut i: usize = 0;
    while i < chars.len()
        invariant
            i <= chars@.len(),
            chars@ == text@,
            forall|j: int| 0 <= j < i ==> whitespace(#[trigger] chars@[j]),
        decreases chars@.len() - i,
    {
        if !chars[i].is_whitespace() {
            return false;
        }
        i = i + 1;
    }
    true
}

/// Number of words that white space separates.
pub fn word_count(text: &str) -> (n: usize)
    ensures
        n == runs(text@, visible(text@)).len(),
{
    let chars = chars_of(text);
    let keep = find_visible(&chars);
    let words = split_runs(chars.as_slice(), keep.as_slice());
    assert(words@.len() == texts_of(words@).len());
    words.len()
}

/// Whether `text` begins with `start`.
pub open spec fn begins_with(text: Seq<char>, start: Seq<char>) -> bool {
    start.len() <= text.len() && text.take(start.len() as int) == start
}

/// Whether `text` begins with `start`.
pub fn starts_with(text: &str, start: &str) -> (b: bool)
    ensures
        b == begins_with(text@, start@),
{
    let x = chars_of(text);
    let y = chars_of(start);
    if y.len() > x.len() {
        return false;
    }
    let mut i: usize = 0;
    while i < y.len()
        invariant
            i <= y@.len() <= x@.len(),
            x@ == text@,
            y@ == start@,
            forall|j: int| 0 <= j < i ==> x@[j] == y@[j],
        decreases y@.len() - i,
    {
        if x[i] != y[i] {
            assert(text@.take(start@.len() as int)[i as int] != start@[i as int]);
            return false;
        }
        i = i + 1;
    }
    assert(text@.take(start@.len() as int) =~= start@);
    true
}

/// The text without the `c`s at its beginning.
pub open spec fn trimmed_front(text: Seq<char>, c: char) -> Seq<char>
    decreases text.len(),
{
    if text.len() > 0 && text[0] == c {
        trimmed_front(text.drop_first(), c)
    } else {
        text
    }
}

/// The text without the `c`s at its end.
pub open spec fn trimmed_back(text: Seq<char>, c: char) -> Seq<char>
    decreases text.len(),
{
    if text.len() > 0 && text.last() == c {
        trimmed_back(text.drop_last(), c)
    } else {
        text
    }
}

/// The parts of a text that `c` separates, empty ones included.
pub open spec fn separated(text: Seq<char>, c: char) -> Seq<Seq<char>>
    decreases text.len(),
{
    if text.len() == 0 {
        seq![Seq::empty()]
    } else {
        let before = separated(text.drop_last(), c);
        if text.last() == c {
            before.push(Seq::empty())
        } else {
            before.drop_last().push(before.last().push(text.last()))
        }
    }
}

/// The parts of a text that `c` separates once the `c`s around it are gone.
pub open spec fn inner_parts(text: Seq<char>, c: char) -> Seq<Seq<char>> {
    separated(trimmed_back(trimmed_front(text, c), c), c)
}

/// There is always one part more than there are separators.
pub proof fn lemma_separated(text: Seq<char>, c: char)
    ensures
        separated(text, c).len() == 1 + text.filter(|x: char| x == c).len(),
        separated(text, c).len() > 0,
    decreases text.len(),
{
    reveal(Seq::filter);
    if text.len() > 0 {
        lemma_separated(text.drop_last(), c);
    }
}

/// The parts of a text that `c` separates once the `c`s around it are gone.
pub fn split_inner(text: &str, c: char) -> (parts: Vec<String>)
    ensures
        texts_of(parts@) == inner_parts(text@, c),
{
    let chars = chars_of(text);
    let mut from: usize = 0;
    assert(chars@.skip(0) =~= chars@);
    while from < chars.len() && chars[from] == c
        invariant
            from <= chars@.len(),
            trimmed_front(chars@, c) == trimmed_front(chars@.skip(from as int), c),
        decreases chars@.len() - from,
    {
        assert(chars@.skip(from as int).drop_first() =~= chars@.skip(from + 1));
        from = from + 1;
    }
    let ghost front = chars@.skip(from as int);
    assert(front == trimmed_front(text@, c));
    let mut to: usize = chars.len();
    assert(chars@.subrange(from as int, to as int) =~= front);
    while to > from && chars[to - 1] == c
        invariant
            from <= to <= chars@.len(),
            trimmed_back(front, c) == trimmed_back(chars@.subrange(from as int, to as int), c),
        decreases to,
    {
        assert(chars@.subrange(from as int, to as int).drop_last() =~= chars@.subrange(
            from as int,
            to - 1,
        ));
        to = to - 1;
    }
    let ghost inner = chars@.subrange(from as int, to as int);
    let mut parts: Vec<String> = Vec::new();
    let mut open: Vec<char> = Vec::new();
    let mut i: usize = from;
    assert(inner.take(0) =~= Seq::empty());
    assert(texts_of(parts@).push(open@) =~= separated(Seq::empty(), c));
    while i < to
        invariant
            from <= i <= to <= chars@.len(),
            inner == chars@.subrange(from as int, to as int),
            texts_of(parts@).push(open@) == separated(inner.take(i - from), c),
        decreases to - i,
    {
        let ghost (done, was_open) = (texts_of(parts@), open@);
        let ghost before = parts@;
        proof {
            assert(inner.take(i + 1 - from).drop_last() =~= inner.take(i - from));
            assert(done.push(was_open).drop_last() =~= done);
        }
        if chars[i] == c {
            parts.push(string_of(open.as_slice()));
            assert(texts_of(parts@) =~= texts_of(before).push(was_open));
            open = Vec::new();
            assert(open@ =~= Seq::empty());
        } else {
            open.push(chars[i]);
        }
        i = i + 1;
    }
    let ghost before = parts@;
    parts.push(string_of(open.as_slice()));
    assert(texts_of(parts@) =~= texts_of(before).push(open@));
    assert(inner.take(i - from) =~= inner);
    parts
}

/// `n` spaces.
pub open spec fn spaces(n: int) -> Seq<char> {
    if n <= 0 {
        Seq::empty()
    } else {
        Seq::new(n as nat, |i: int| ' ')
    }
}

/// The text flush right in a column of the given width.
pub open spec fn flush_right(text: Seq<char>, width: nat) -> Seq<char> {
    spaces(width - text.len()) + text
}

/// The text flush left in a column of the given width.
pub open spec fn flush_left(text: Seq<char>, width: nat) -> Seq<char> {
    text + spaces(width - text.len())
}

/// The spaces that fill a column of the given width.
fn padding(text: &str, width: usize) -> (s: String)
    ensures
        s@ == spaces(width - text@.len()),
{
    let len: usize = text.unicode_len();
    let mut s = String::new();
    let mut i: usize = len;
    while i < width
        invariant
            len == text@.len(),
            i <= width || i == len,
            len <= i,
            s@ == Seq::new((i - len) as nat, |j: int| ' '),
        decreases width - i,
    {
        s.push(' ');
        i = i + 1;
        assert(s@ =~= Seq::new((i - len) as nat, |j: int| ' '));
    }
    assert(s@ =~= spaces(width - text@.len()));
    s
}

/// The text flush right in a column of the given width.
pub fn pad_left(text: &str, width: usize) -> (s: String)
    ensures
        s@ == flush_right(text@, width as nat),
{
    let mut s = padding(text, width);
    s.append(text);
    s
}

/// The text flush left in a column of the given width.
pub fn pad_right(text: &str, width: usize) -> (s: String)
    ensures
        s@ == flush_left(text@, width as nat),
{
    joined(text, padding(text, width).as_str())
}

/// The character as it stands in a JSON string.
pub open spec fn escaped_char(c: char) -> Seq<char> {
    if c == '\\' {
        seq!['\\', '\\']
    } else if c == '"' {
        seq!['\\', '"']
    } else {
        seq![c]
    }
}

/// The text with backslashes and quotes escaped.
pub open spec fn escaped(text: Seq<char>) -> Seq<char>
    decreases text.len(),
{
    if text.len() == 0 {
        Seq::empty()
    } else {
        escaped(text.drop_last()) + escaped_char(text.last())
    }
}

/// The text with backslashes and quotes escaped.
pub fn json_escape(text: &str) -> (s: String)
    ensures
        s@ == escaped(text@),
{
    let chars = chars_of(text);
    let mut s = String::new();
    let mut i: usize = 0;
    while i < chars.len()
        invariant
            i <= chars@.len(),
            s@ == escaped(chars@.take(i as int)),
        decreases chars@.len() - i,
    {
        let c = chars[i];
        let ghost before = s@;
        assert(chars@.take(i + 1).drop_last() =~= chars@.take(i as int));
        if c == '\\' || c == '"' {
            s.push('\\');
        }
        s.push(c);
        assert(s@ =~= before + escaped_char(c));
        i = i + 1;
    }
    assert(chars@.take(i as int) =~= chars@);
    s
}

/// A number in decimal: its last digit, behind the other digits if there are any.
pub proof fn lemma_decimal_digits(n: nat)
    ensures
        n < 10 ==> decimal_text(n) == seq![(('0' as int) + n) as char],
        n >= 10 ==> decimal_text(n) == decimal_text(n / 10).push(
            (('0' as int) + n % 10) as char,
        ),
{
}

/// What comes before what: of two texts that differ at a place, and at none before it,
/// the one with the smaller character there, and of two texts of which one begins the
/// other the shorter one.
pub proof fn lemma_text_order(a: Seq<char>, b: Seq<char>, i: int)
    requires
        0 <= i <= a.len(),
        i <= b.len(),
        forall|j: int| 0 <= j < i ==> a[j] == b[j],
    ensures
        i < a.len() && i < b.len() && a[i] != b[i] ==> (text_before(a, b) <==> (a[i] as int) < (
        b[i] as int)),
        i == a.len() ==> (text_before(a, b) <==> i < b.len()),
        i == b.len() ==> !text_before(a, b),
    decreases i,
{
    if i > 0 {
        let (x, y) = (a.drop_first(), b.drop_first());
        assert forall|j: int| 0 <= j < i - 1 implies x[j] == y[j] by {
            assert(a[j + 1] == b[j + 1]);
        }
        lemma_text_order(x, y, i - 1);
        assert(a[0] == b[0]);
    }
}

proof fn lemma_split_all_kept(text: Seq<char>, keep: Seq<bool>)
    requires
        text.len() == keep.len(),
        forall|i: int| 0 <= i < keep.len() ==> #[trigger] keep[i],
    ensures
        split_so_far(text, keep) == (Seq::<Seq<char>>::empty(), text),
    decreases text.len(),
{
    if text.len() > 0 {
        lemma_split_all_kept(text.drop_last(), keep.drop_last());
        assert(keep[keep.len() - 1]);
        assert(text.drop_last().push(text.last()) =~= text);
    } else {
        assert(text =~= Seq::empty());
    }
}

/// A text that is kept as a whole is one run.
pub proof fn lemma_whole_run(text: Seq<char>, keep: Seq<bool>)
    requires
        text.len() == keep.len(),
        forall|i: int| 0 <= i < keep.len() ==> #[trigger] keep[i],
    ensures
        runs(text, keep) == if text.len() == 0 {
            Seq::empty()
        } else {
            seq![text]
        },
{
    lemma_split_all_kept(text, keep);
    assert(Seq::empty().push(text) =~= seq![text]);
}

proof fn lemma_split_at_gap(
    a: Seq<char>,
    ka: Seq<bool>,
    gap: char,
    b: Seq<char>,
    kb: Seq<bool>,
)
    requires
        a.len() == ka.len(),
        b.len() == kb.len(),
    ensures
        split_so_far(a.push(gap) + b, ka.push(false) + kb) == (
            runs(a, ka) + split_so_far(b, kb).0,
            split_so_far(b, kb).1,
        ),
    decreases b.len(),
{
    let (text, keep) = (a.push(gap) + b, ka.push(false) + kb);
    if b.len() == 0 {
        assert(text =~= a.push(gap) && keep =~= ka.push(false));
        assert(text.drop_last() =~= a && keep.drop_last() =~= ka);
        assert(runs(a, ka) + Seq::<Seq<char>>::empty() =~= runs(a, ka));
    } else {
        let (x, kx) = (b.drop_last(), kb.drop_last());
        assert(text.drop_last() =~= a.push(gap) + x);
        assert(keep.drop_last() =~= ka.push(false) + kx);
        lemma_split_at_gap(a, ka, gap, x, kx);
        let (done, open) = split_so_far(x, kx);
        assert(runs(a, ka) + done.push(open) =~= (runs(a, ka) + done).push(open));
    }
}

/// A character that is not kept breaks a text in two: its runs are those of what comes
/// before, followed by those of what comes behind.
pub proof fn lemma_runs_break(a: Seq<char>, ka: Seq<bool>, gap: char, b: Seq<char>, kb: Seq<bool>)
    requires
        a.len() == ka.len(),
        b.len() == kb.len(),
    ensures
        runs(a.push(gap) + b, ka.push(false) + kb) == runs(a, ka) + runs(b, kb),
{
    lemma_split_at_gap(a, ka, gap, b, kb);
    let (done, open) = split_so_far(b, kb);
    assert(runs(a, ka) + done.push(open) =~= (runs(a, ka) + done).push(open));
}

/// A text without separators is one part.
pub proof fn lemma_one_part(text: Seq<char>, c: char)
    requires
        !text.contains(c),
    ensures
        separated(text, c) == seq![text],
    decreases text.len(),
{
    if text.len() == 0 {
        assert(text =~= Seq::empty());
    } else {
        let init = text.drop_last();
        assert(!init.contains(c)) by {
            if init.contains(c) {
                let i = choose|i: int| 0 <= i < init.len() && init[i] == c;
                assert(text[i] == c);
            }
        }
        lemma_one_part(init, c);
        assert(text[text.len() - 1] != c);
        assert(init.push(text.last()) =~= text);
        assert(seq![init].drop_last().push(text) =~= seq![text]);
    }
}

/// A separator breaks a text in two: its parts are those of what comes before, followed
/// by those of what comes behind.
pub proof fn lemma_parts_break(a: Seq<char>, c: char, b: Seq<char>)
    ensures
        separated(a.push(c) + b, c) == separated(a, c) + separated(b, c),
        separated(b, c).len() > 0,
    decreases b.len(),
{
    let text = a.push(c) + b;
    if b.len() == 0 {
        assert(text =~= a.push(c));
        assert(text.drop_last() =~= a);
        assert(separated(a, c).push(Seq::empty()) =~= separated(a, c) + seq![Seq::empty()]);
    } else {
        let init = b.drop_last();
        lemma_parts_break(a, c, init);
        assert(text.drop_last() =~= a.push(c) + init);
        let (front, back) = (separated(a, c), separated(init, c));
        assert((front + back).push(Seq::empty()) =~= front + back.push(Seq::empty()));
        assert((front + back).drop_last() =~= front + back.drop_last());
        assert((front + back).last() == back.last());
        let longer = back.last().push(b.last());
        assert((front + back.drop_last()).push(longer) =~= front + back.drop_last().push(longer));
    }
}

/// Trimming takes the `c`s at the beginning, all of them and nothing else.
pub proof fn lemma_trimmed_front(text: Seq<char>, c: char)
    ensures
        ({
            let r = trimmed_front(text, c);
            let n = text.len() - r.len();
            &&& 0 <= n
            &&& r == text.skip(n)
            &&& forall|i: int| 0 <= i < n ==> #[trigger] text[i] == c
            &&& r.len() > 0 ==> r[0] != c
        }),
    decreases text.len(),
{
    if text.len() > 0 && text[0] == c {
        let rest = text.drop_first();
        lemma_trimmed_front(rest, c);
        let n = text.len() - trimmed_front(text, c).len();
        assert(rest.skip(n - 1) =~= text.skip(n));
        assert forall|i: int| 0 <= i < n implies #[trigger] text[i] == c by {
            if i > 0 {
                assert(rest[i - 1] == text[i]);
            }
        }
    } else {
        assert(text.skip(0) =~= text);
    }
}

/// Trimming takes the `c`s at the end, all of them and nothing else.
pub proof fn lemma_trimmed_back(text: Seq<char>, c: char)
    ensures
        ({
            let r = trimmed_back(text, c);
            &&& r.len() <= text.len()
            &&& r == text.take(r.len() as int)
            &&& forall|i: int| r.len() <= i < text.len() ==> #[trigger] text[i] == c
            &&& r.len() > 0 ==> r.last() != c
        }),
    decreases text.len(),
{
    if text.len() > 0 && text.last() == c {
        let init = text.drop_last();
        lemma_trimmed_back(init, c);
        let r = trimmed_back(text, c);
        assert(init.take(r.len() as int) =~= text.take(r.len() as int));
        assert forall|i: int| r.len() <= i < text.len() implies #[trigger] text[i] == c by {
            if i < init.len() {
                assert(init[i] == text[i]);
            }
        }
    } else {
        assert(text.take(text.len() as int) =~= text);
    }
}

/// Escaping puts a backslash before every backslash and every quotation mark, and leaves
/// every other character as it is.
pub proof fn lemma_escaped(text: Seq<char>)
    ensures
        escaped(text) == text.map_values(
            |c: char|
                if c == '\\' || c == '"' {
                    seq!['\\', c]
                } else {
                    seq![c]
                },
        ).flatten(),
    decreases text.len(),
{
    let parts = text.map_values(
        |c: char|
            if c == '\\' || c == '"' {
                seq!['\\', c]
            } else {
                seq![c]
            },
    );
    if text.len() == 0 {
        assert(parts =~= Seq::empty());
    } else {
        lemma_escaped(text.drop_last());
        assert(parts.drop_last() =~= text.drop_last().map_values(
            |c: char|
                if c == '\\' || c == '"' {
                    seq!['\\', c]
                } else {
                    seq![c]
                },
        ));
        assert(parts =~= parts.drop_last().push(parts.last()));
        lemma_flatten_push(parts.drop_last(), parts.last());
        assert(parts.last() == escaped_char(text.last()));
    }
}

/// A text flush right or left in a column: spaces fill what it leaves of the width.
pub proof fn lemma_flush(text: Seq<char>, width: nat)
    ensures
        flush_right(text, width).len() == flush_left(text, width).len(),
        flush_right(text, width).len() == if text.len() <= width {
            width
        } else {
            text.len()
        },
        flush_right(text, width).skip(flush_right(text, width).len() - text.len()) == text,
        flush_left(text, width).take(text.len() as int) == text,
        forall|i: int|
            0 <= i < width - text.len() ==> #[trigger] flush_right(text, width)[i] == ' ',
        forall|i: int|
            text.len() <= i < width ==> #[trigger] flush_left(text, width)[i] == ' ',
{
    assert(flush_right(text, width).skip(flush_right(text, width).len() - text.len()) =~= text);
    assert(flush_left(text, width).take(text.len() as int) =~= text);
}

/// A text begins with another one if it is that one and something behind it.
pub proof fn lemma_begins_with(text: Seq<char>, start: Seq<char>, rest: Seq<char>)
    ensures
        begins_with(start + rest, start),
        begins_with(text, start) <==> start.len() <= text.len() && forall|i: int|
            0 <= i < start.len() ==> #[trigger] text[i] == start[i],
{
    assert((start + rest).take(start.len() as int) =~= start);
    if start.len() <= text.len() {
        let head = text.take(start.len() as int);
        if forall|i: int| 0 <= i < start.len() ==> #[trigger] text[i] == start[i] {
            assert(head =~= start);
        }
        if head == start {
            assert forall|i: int| 0 <= i < start.len() implies #[trigger] text[i] == start[i] by {
                assert(head[i] == text[i]);
            }
        }
    }
}

/// Two texts together are blank if each of them is, and one character is if it is
/// whitespace.
pub proof fn lemma_blank(a: Seq<char>, b: Seq<char>, c: char)
    ensures
        blank(Seq::empty()),
        blank(seq![c]) <==> whitespace(c),
        blank(a + b) <==> blank(a) && blank(b),
{
    let both = a + b;
    if blank(both) {
        assert forall|i: int| 0 <= i < a.len() implies whitespace(#[trigger] a[i]) by {
            assert(both[i] == a[i]);
        }
        assert forall|i: int| 0 <= i < b.len() implies whitespace(#[trigger] b[i]) by {
            assert(both[a.len() + i] == b[i]);
        }
    }
    assert(seq![c][0] == c);
}

/// Separators at either end of a text do not count: they part nothing. Between the ends
/// every separator does.
pub proof fn lemma_inner_parts(text: Seq<char>, c: char)
    ensures
        inner_parts(text.push(c), c) == inner_parts(text, c),
        inner_parts(seq![c] + text, c) == inner_parts(text, c),
        text.len() > 0 && text[0] != c && text.last() != c ==> inner_parts(text, c) == separated(
            text,
            c,
        ),
        text.len() == 0 ==> inner_parts(text, c) == seq![Seq::<char>::empty()],
{
    lemma_trimmed_pushed(text, c);
    let front = trimmed_front(text, c);
    if front.len() > 0 {
        assert(front.push(c).drop_last() =~= front);
        assert(trimmed_back(front.push(c), c) == trimmed_back(front, c));
    }
    assert((seq![c] + text).drop_first() =~= text);
    assert(trimmed_front(seq![c] + text, c) == front);
}

proof fn lemma_trimmed_pushed(text: Seq<char>, c: char)
    ensures
        trimmed_front(text, c).len() == 0 ==> trimmed_front(text.push(c), c).len() == 0,
        trimmed_front(text, c).len() > 0 ==> trimmed_front(text.push(c), c) == trimmed_front(
            text,
            c,
        ).push(c),
    decreases text.len(),
{
    let longer = text.push(c);
    if text.len() == 0 {
        assert(longer[0] == c);
        assert(longer.drop_first() =~= Seq::empty());
        assert(trimmed_front(longer.drop_first(), c).len() == 0);
    } else if text[0] == c {
        lemma_trimmed_pushed(text.drop_first(), c);
        assert(longer.drop_first() =~= text.drop_first().push(c));
    }
}

} // verus!
