//! Names of creatures, and words of a command line.

use vstd::multiset::Multiset;
use vstd::prelude::*;
use vstd::string::StrSliceExecFns;

verus! {

/// Whether one text comes no later than another: by the first character that differs, or
/// by length.
pub open spec fn text_le(a: Seq<char>, b: Seq<char>) -> bool
    decreases a.len(),
{
    if a.len() == 0 {
        true
    } else if b.len() == 0 {
        false
    } else if a[0] != b[0] {
        (a[0] as int) < (b[0] as int)
    } else {
        text_le(a.skip(1), b.skip(1))
    }
}

/// Texts can be put in order.
pub proof fn lemma_text_total(a: Seq<char>, b: Seq<char>)
    ensures
        text_le(a, b) || text_le(b, a),
    decreases a.len(),
{
    if a.len() > 0 && b.len() > 0 && a[0] == b[0] {
        lemma_text_total(a.skip(1), b.skip(1));
    }
}

/// The order of texts is transitive.
pub proof fn lemma_text_trans(a: Seq<char>, b: Seq<char>, c: Seq<char>)
    requires
        text_le(a, b),
        text_le(b, c),
    ensures
        text_le(a, c),
    decreases a.len(),
{
    if a.len() > 0 && a[0] == b[0] && b[0] == c[0] {
        lemma_text_trans(a.skip(1), b.skip(1), c.skip(1));
    }
}

/// Whether one text comes no later than another.
fn text_at_most(a: &str, b: &str) -> (r: bool)
    ensures
        r == text_le(a@, b@),
{
    let n: usize = a.unicode_len();
    let m: usize = b.unicode_len();
    let mut i: usize = 0;
    assert(a@.skip(0) =~= a@);
    assert(b@.skip(0) =~= b@);
    while i < n && i < m
        invariant
            i <= n,
            i <= m,
            n == a@.len(),
            m == b@.len(),
            text_le(a@, b@) == text_le(a@.skip(i as int), b@.skip(i as int)),
        decreases n - i,
    {
        let x = a.get_char(i);
        let y = b.get_char(i);
        assert(a@.skip(i as int)[0] == x);
        assert(b@.skip(i as int)[0] == y);
        if x != y {
            return (x as u32) < (y as u32);
        }
        assert(a@.skip(i as int).skip(1) =~= a@.skip(i + 1));
        assert(b@.skip(i as int).skip(1) =~= b@.skip(i + 1));
        i = i + 1;
    }
    i == n
}

/// Whether a text starts with another.
fn starts_with(text: &str, prefix: &str) -> (r: bool)
    ensures
        r == prefix@.is_prefix_of(text@),
{
    let n: usize = text.unicode_len();
    let m: usize = prefix.unicode_len();
    if m > n {
        return false;
    }
    let mut i: usize = 0;
    while i < m
        invariant
            i <= m <= n,
            n == text@.len(),
            m == prefix@.len(),
            forall|k: int| 0 <= k < i ==> #[trigger] prefix@[k] == text@[k],
        decreases m - i,
    {
        if text.get_char(i) != prefix.get_char(i) {
            assert(prefix@[i as int] != text@.subrange(0, m as int)[i as int]);
            return false;
        }
        i = i + 1;
    }
    assert(prefix@ =~= text@.subrange(0, m as int));
    true
}

/// The name of a file: what stands before its last dot, and what stands behind it.
pub struct FileName {
    pub stem: String,
    pub extension: String,
}

/// Whether a file holds a creature whose name starts with a prefix.
pub open spec fn is_creature(f: FileName, prefix: Seq<char>) -> bool {
    f.extension@ == "json"@ && prefix.is_prefix_of(f.stem@)
}

/// The creatures among the first `n` files, as a bag of names.
pub open spec fn creatures_among(files: Seq<FileName>, prefix: Seq<char>, n: nat) -> Multiset<
    Seq<char>,
>
    decreases n,
{
    if n == 0 {
        Multiset::empty()
    } else {
        let rest = creatures_among(files, prefix, (n - 1) as nat);
        if is_creature(files[n - 1], prefix) {
            rest.insert(files[n - 1].stem@)
        } else {
            rest
        }
    }
}

/// The texts of strings.
pub open spec fn texts(list: Seq<String>) -> Seq<Seq<char>> {
    list.map_values(|s: String| s@)
}

/// Whether texts are in order.
pub open spec fn in_order(list: Seq<Seq<char>>) -> bool {
    forall|i: int, j: int| 0 <= i < j < list.len() ==> text_le(#[trigger] list[i], #[trigger] list[j])
}

/// Puts a name where it belongs.
fn insert_name(list: &mut Vec<String>, name: String)
    requires
        in_order(texts(old(list)@)),
    ensures
        in_order(texts(final(list)@)),
        texts(final(list)@).to_multiset() == texts(old(list)@).to_multiset().insert(name@),
{
    let ghost before = texts(list@);
    let ghost new = name@;
    let mut p: usize = 0;
    while p < list.len() && text_at_most(list[p].as_str(), name.as_str())
        invariant
            p <= list@.len(),
            before == texts(list@),
            new == name@,
            forall|i: int| 0 <= i < p ==> text_le(#[trigger] before[i], new),
        ensures
            p <= list@.len(),
            before == texts(list@),
            forall|i: int| 0 <= i < p ==> text_le(#[trigger] before[i], new),
            p < list@.len() ==> !text_le(before[p as int], new),
        decreases list@.len() - p,
    {
        p = p + 1;
    }
    list.insert(p, name);
    proof {
        let after = texts(list@);
        assert(after =~= before.insert(p as int, new));
        vstd::seq_lib::to_multiset_insert(before, p as int, new);
        assert forall|i: int, j: int| 0 <= i < j < after.len() implies text_le(
            #[trigger] after[i],
            #[trigger] after[j],
        ) by {
            if j < p {
                assert(text_le(before[i], before[j]));
            } else if j == p {
                assert(text_le(before[i], new));
            } else if i < p {
                assert(text_le(before[i], before[j - 1]));
            } else {
                lemma_text_total(before[p as int], new);
                if i == p {
                    if j - 1 > p {
                        assert(text_le(before[p as int], before[j - 1]));
                        lemma_text_trans(new, before[p as int], before[j - 1]);
                    }
                } else {
                    assert(text_le(before[i - 1], before[j - 1]));
                }
            }
        }
    }
}

/// The creatures among files, in order.
pub fn discover_creatures(files: &Vec<FileName>, prefix: &str) -> (names: Vec<String>)
    ensures
        in_order(texts(names@)),
        texts(names@).to_multiset() == creatures_among(files@, prefix@, files@.len()),
{
    let mut names: Vec<String> = Vec::new();
    let mut i: usize = 0;
    proof {
        assert(texts(names@) =~= Seq::<Seq<char>>::empty());
        texts(names@).to_multiset_ensures();
        assert(texts(names@).to_multiset() =~= Multiset::empty());
    }
    while i < files.len()
        invariant
            i <= files@.len(),
            in_order(texts(names@)),
            texts(names@).to_multiset() == creatures_among(files@, prefix@, i as nat),
        decreases files@.len() - i,
    {
        let file = &files[i];
        if file.extension == "json".to_owned() && starts_with(file.stem.as_str(), prefix) {
            insert_name(&mut names, file.stem.clone());
        }
        i = i + 1;
    }
    names
}

/// Where a word stands first among words.
fn find_word(args: &Vec<String>, word: &str) -> (at: Option<usize>)
    ensures
        at == first_at(args@, word@, args@.len()),
{
    let n: usize = args.len();
    let mut i: usize = 0;
    while i < n
        invariant
            i <= n,
            n == args@.len(),
            forall|k: int| 0 <= k < i ==> (#[trigger] args@[k])@ != word@,
        decreases n - i,
    {
        if args[i] == word.to_owned() {
            proof {
                lemma_first_at(args@, word@, args@.len(), i as int);
            }
            return Some(i);
        }
        i = i + 1;
    }
    proof {
        lemma_not_found(args@, word@, args@.len());
    }
    None
}

/// Where a word stands first among the first `n` words.
pub open spec fn first_at(args: Seq<String>, word: Seq<char>, n: nat) -> Option<usize>
    decreases n,
{
    if n == 0 {
        None
    } else {
        match first_at(args, word, (n - 1) as nat) {
            Some(i) => Some(i),
            None => if args[n - 1]@ == word {
                Some((n - 1) as usize)
            } else {
                None
            },
        }
    }
}

/// A word that stands nowhere is not found.
proof fn lemma_not_found(args: Seq<String>, word: Seq<char>, n: nat)
    requires
        n <= args.len(),
        forall|k: int| 0 <= k < n ==> (#[trigger] args[k])@ != word,
    ensures
        first_at(args, word, n) is None,
    decreases n,
{
    if n > 0 {
        lemma_not_found(args, word, (n - 1) as nat);
        assert(args[n - 1]@ != word);
    }
}

/// A word is found where it stands first.
proof fn lemma_first_at(args: Seq<String>, word: Seq<char>, n: nat, i: int)
    requires
        0 <= i < n <= args.len(),
        args[i]@ == word,
        n <= usize::MAX,
        forall|k: int| 0 <= k < i ==> (#[trigger] args[k])@ != word,
    ensures
        first_at(args, word, n) == Some(i as usize),
    decreases n,
{
    if n == i + 1 {
        lemma_not_found(args, word, (n - 1) as nat);
    } else {
        lemma_first_at(args, word, (n - 1) as nat, i);
    }
}

/// The name that a command line gives: the word behind `--creature`, or the glider where
/// none follows; nothing where the word is not there.
pub open spec fn creature_of(args: Seq<String>) -> Option<Seq<char>> {
    match first_at(args, "--creature"@, args.len()) {
        Some(p) => Some(
            if p + 1 < args.len() {
                args[p + 1]@
            } else {
                "glider"@
            },
        ),
        None => None,
    }
}

/// The name that a command line gives.
pub fn creature_name(args: &Vec<String>) -> (name: Option<String>)
    ensures
        name is Some <==> creature_of(args@) is Some,
        name is Some ==> name->0@ == creature_of(args@)->0,
{
    let n: usize = args.len();
    match find_word(args, "--creature") {
        Some(p) => {
            proof {
                lemma_first_bound(args@, "--creature"@, args@.len());
            }
            if p < n - 1 {
                Some(args[p + 1].clone())
            } else {
                Some("glider".to_owned())
            }
        },
        None => None,
    }
}

/// A word is found among the words.
proof fn lemma_first_bound(args: Seq<String>, word: Seq<char>, n: nat)
    requires
        n <= usize::MAX,
    ensures
        first_at(args, word, n) is Some ==> first_at(args, word, n)->0 < n,
    decreases n,
{
    if n > 0 {
        lemma_first_bound(args, word, (n - 1) as nat);
    }
}

/// Whether a character is a decimal digit.
pub open spec fn is_digit(c: char) -> bool {
    '0' as u32 <= c as u32 <= '9' as u32
}

/// The value of decimal digits.
pub open spec fn digits_value(s: Seq<char>) -> nat
    decreases s.len(),
{
    if s.len() == 0 {
        0
    } else {
        10 * digits_value(s.drop_last()) + (s.last() as u32 - '0' as u32) as nat
    }
}

/// Whether a text is made of decimal digits.
pub open spec fn all_digits(s: Seq<char>) -> bool {
    forall|i: int| 0 <= i < s.len() ==> is_digit(#[trigger] s[i])
}

/// A size written in decimal digits, perhaps behind a plus sign.
pub open spec fn size_of_text(s: Seq<char>) -> Option<usize> {
    let body = if s.len() > 0 && s[0] == '+' {
        s.skip(1)
    } else {
        s
    };
    if body.len() > 0 && all_digits(body) && digits_value(body) <= usize::MAX {
        Some(digits_value(body) as usize)
    } else {
        None
    }
}

/// More digits make no smaller number.
proof fn lemma_value_grows(s: Seq<char>, n: int)
    requires
        0 <= n <= s.len(),
    ensures
        digits_value(s.take(n)) <= digits_value(s),
    decreases s.len(),
{
    if n < s.len() {
        lemma_value_grows(s.drop_last(), n);
        assert(s.drop_last().take(n) =~= s.take(n));
    } else {
        assert(s.take(n) =~= s);
    }
}

/// Reads a size.
pub fn parse_size(s: &str) -> (size: Option<usize>)
    ensures
        size == size_of_text(s@),
{
    let n: usize = s.unicode_len();
    let from: usize = if n > 0 && s.get_char(0) == '+' {
        1
    } else {
        0
    };
    let ghost body = s@.skip(from as int);
    assert(from == 0 ==> body =~= s@);
    if from == n {
        return None;
    }
    let mut value: usize = 0;
    let mut i: usize = from;
    assert(body.take(0) =~= Seq::<char>::empty());
    while i < n
        invariant
            from <= i <= n,
            from < n,
            n == s@.len(),
            from == (if n > 0 && s@[0] == '+' {
                1int
            } else {
                0int
            }),
            body == s@.skip(from as int),
            from == 0 ==> body == s@,
            forall|k: int| 0 <= k < i - from ==> is_digit(#[trigger] body[k]),
            value == digits_value(body.take(i - from)),
        decreases n - i,
    {
        let c = s.get_char(i);
        assert(body[i - from] == c);
        if !('0' as u32 <= c as u32 && c as u32 <= '9' as u32) {
            assert(!is_digit(body[i - from]));
            return None;
        }
        let d: usize = (c as u32 - '0' as u32) as usize;
        proof {
            let next = body.take(i - from + 1);
            assert(next.drop_last() =~= body.take(i - from));
            assert(next.last() == c);
            lemma_value_grows(body, i - from + 1);
            assert(digits_value(next) == 10 * value + d);
        }
        if value > (usize::MAX - d) / 10 {
            assert(10 * value + d > usize::MAX);
            return None;
        }
        value = 10 * value + d;
        i = i + 1;
    }
    assert(body.take(i - from) =~= body);
    Some(value)
}

/// The size that a command line gives behind `--grid-size`, or a default where it gives
/// none that can be read.
pub open spec fn grid_size_of(args: Seq<String>, default: usize) -> usize {
    match first_at(args, "--grid-size"@, args.len()) {
        Some(p) => if p + 1 < args.len() {
            match size_of_text(args[p + 1]@) {
                Some(size) => size,
                None => default,
            }
        } else {
            default
        },
        None => default,
    }
}

/// The size that a command line gives.
pub fn grid_size(args: &Vec<String>, default: usize) -> (size: usize)
    ensures
        size == grid_size_of(args@, default),
{
    let n: usize = args.len();
    match find_word(args, "--grid-size") {
        Some(p) => {
            proof {
                lemma_first_bound(args@, "--grid-size"@, args@.len());
            }
            if p < n - 1 {
                match parse_size(args[p + 1].as_str()) {
                    Some(size) => size,
                    None => default,
                }
            } else {
                default
            }
        },
        None => default,
    }
}

/// The order of texts is that of the first character that differs, and a text comes no later than
/// one that it starts.
pub proof fn law_texts_are_ordered_by_first_difference(a: Seq<char>, b: Seq<char>, d: int)
    requires
        0 <= d <= a.len(),
        d <= b.len(),
        a.take(d) == b.take(d),
    ensures
        d == a.len() ==> text_le(a, b),
        d == b.len() && d < a.len() ==> !text_le(a, b),
        d < a.len() && d < b.len() && a[d] != b[d] ==> text_le(a, b) == ((a[d] as int) < (b[d] as int)),
    decreases d,
{
    if d > 0 {
        assert(a[0] == a.take(d)[0] && b[0] == b.take(d)[0]);
        assert(a.skip(1).take(d - 1) =~= a.take(d).skip(1));
        assert(b.skip(1).take(d - 1) =~= b.take(d).skip(1));
        law_texts_are_ordered_by_first_difference(a.skip(1), b.skip(1), d - 1);
    }
}

/// The creatures that are found are the stems of the files whose extension is `json` and whose
/// stem starts with the prefix, and no others, each as often as there are such files, in order.
pub proof fn law_creatures_are_json_files(
    files: &Vec<FileName>,
    prefix: &str,
    names: Vec<String>,
    name: Seq<char>,
    i: int,
    j: int,
)
    requires
        call_ensures(discover_creatures, (files, prefix), names),
        0 <= i < j < names@.len(),
    ensures
        texts(names@).contains(name) <==> exists|k: int|
            0 <= k < files@.len() && #[trigger] files@[k].stem@ == name && files@[k].extension@
                == "json"@ && prefix@.is_prefix_of(name),
        text_le(names@[i]@, names@[j]@),
{
    let all = texts(names@);
    all.to_multiset_ensures();
    lemma_among(files@, prefix@, files@.len(), name);
    assert(all.contains(name) <==> all.to_multiset().count(name) > 0);
    assert(all[i] == names@[i]@ && all[j] == names@[j]@);
    assert(text_le(all[i], all[j]));
}

/// Whether a name is among the creatures of the first files.
proof fn lemma_among(files: Seq<FileName>, prefix: Seq<char>, n: nat, name: Seq<char>)
    requires
        n <= files.len(),
    ensures
        creatures_among(files, prefix, n).count(name) > 0 <==> exists|k: int|
            0 <= k < n && #[trigger] files[k].stem@ == name && files[k].extension@ == "json"@
                && prefix.is_prefix_of(name),
    decreases n,
{
    if n > 0 {
        let m = (n - 1) as nat;
        lemma_among(files, prefix, m, name);
        let f = files[m as int];
        if creatures_among(files, prefix, m).count(name) > 0 {
            let k = choose|k: int|
                0 <= k < m && #[trigger] files[k].stem@ == name && files[k].extension@ == "json"@
                    && prefix.is_prefix_of(name);
            assert(files[k].stem@ == name);
        }
        if f.stem@ == name {
            assert(files[m as int].stem@ == name);
        }
    }
}

/// The name that a command line gives is the word behind the first `--creature`, or `glider`
/// where none follows; without that word there is none.
pub proof fn law_creature_is_named_behind_its_word(
    args: &Vec<String>,
    name: Option<String>,
    p: int,
)
    requires
        call_ensures(creature_name, (args,), name),
        args@.len() <= usize::MAX,
    ensures
        (forall|k: int| 0 <= k < args@.len() ==> (#[trigger] args@[k])@ != "--creature"@) ==> name
            is None,
        0 <= p < args@.len() && args@[p]@ == "--creature"@ && (forall|k: int|
            0 <= k < p ==> (#[trigger] args@[k])@ != "--creature"@) ==> name is Some && name->0@
            == (if p + 1 < args@.len() {
            args@[p + 1]@
        } else {
            "glider"@
        }),
{
    let word = "--creature"@;
    if forall|k: int| 0 <= k < args@.len() ==> (#[trigger] args@[k])@ != word {
        lemma_not_found(args@, word, args@.len());
    }
    if 0 <= p < args@.len() && args@[p]@ == word && (forall|k: int|
        0 <= k < p ==> (#[trigger] args@[k])@ != word) {
        lemma_first_at(args@, word, args@.len(), p);
    }
}

/// The size that a command line gives is the number behind the first `--grid-size`, and the
/// default where none follows that can be read, or the word is not there.
pub proof fn law_grid_size_is_given_behind_its_word(
    args: &Vec<String>,
    default: usize,
    size: usize,
    p: int,
    word: &str,
    number: Option<usize>,
)
    requires
        call_ensures(grid_size, (args, default), size),
        args@.len() <= usize::MAX,
        0 <= p < args@.len(),
        args@[p]@ == "--grid-size"@,
        forall|k: int| 0 <= k < p ==> (#[trigger] args@[k])@ != "--grid-size"@,
        p + 1 < args@.len() ==> word@ == args@[p + 1]@,
        call_ensures(parse_size, (word,), number),
    ensures
        p + 1 < args@.len() && number is Some ==> size == number->0,
        p + 1 == args@.len() || number is None ==> size == default,
{
    lemma_first_at(args@, "--grid-size"@, args@.len(), p);
}

/// A size is read as it is written: a digit alone is its number, a digit more makes ten times the
/// number and the digit, and a plus sign before digits changes nothing; whatever has no digit, or
/// anything else behind them, is no size.
pub proof fn law_sizes_are_read_as_written(
    s: &str,
    size: Option<usize>,
    more: &str,
    longer: Option<usize>,
    c: char,
)
    requires
        call_ensures(parse_size, (s,), size),
        call_ensures(parse_size, (more,), longer),
        more@ == s@.push(c),
    ensures
        s@.len() == 0 ==> size is None,
        s@.len() == 0 && '0' <= c <= '9' ==> longer == Some((c as u32 - '0' as u32) as usize),
        s@ == seq!['+'] && '0' <= c <= '9' ==> longer == Some((c as u32 - '0' as u32) as usize),
        !('0' <= c <= '9') ==> longer is None,
        size is Some && '0' <= c <= '9' ==> {
            let n = 10 * size->0 + (c as u32 - '0' as u32);
            if n <= usize::MAX {
                longer == Some(n as usize)
            } else {
                longer is None
            }
        },
{
    let t = more@;
    let body = if s@.len() > 0 && s@[0] == '+' {
        s@.skip(1)
    } else {
        s@
    };
    let long = if t.len() > 0 && t[0] == '+' {
        t.skip(1)
    } else {
        t
    };
    if s@.len() > 0 {
        assert(t[0] == s@[0]);
        assert(long =~= body.push(c));
        assert(long.drop_last() =~= body);
    } else {
        assert(t =~= seq![c]);
        assert(t.drop_last() =~= Seq::<char>::empty());
        assert(digits_value(Seq::<char>::empty()) == 0);
        assert(t.skip(1) =~= Seq::<char>::empty());
    }
    if s@ == seq!['+'] {
        assert(body =~= Seq::<char>::empty());
        assert(digits_value(Seq::<char>::empty()) == 0);
    }
    assert(long.len() > 0 ==> long.last() == c || s@.len() == 0);
    assert(all_digits(long) ==> (long.len() > 0 ==> is_digit(long.last())));
    if '0' <= c <= '9' && all_digits(body) && s@.len() > 0 {
        assert forall|k: int| 0 <= k < long.len() implies is_digit(#[trigger] long[k]) by {
            if k < body.len() {
                assert(long[k] == body[k]);
            }
        }
    }
}

} // verus!
