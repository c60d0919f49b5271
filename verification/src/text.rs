//! Text as the engine reads and prints it: equality, decimal numbers, the
//! code-point order that names and hashes are compared by.

use vstd::prelude::*;
use vstd::string::*;

verus! {

/// Do the two texts hold the same characters?
pub fn same_text(a: &str, b: &str) -> (same: bool)
    ensures
        same == (a@ == b@),
{
    let left: String = a.to_owned();
    let right: String = b.to_owned();
    left == right
}

/// The decimal digits of `n`, most significant first.
pub open spec fn dec(n: nat) -> Seq<char>
    decreases n,
{
    if n < 10 {
        seq![digit_char(n)]
    } else {
        dec(n / 10).push(digit_char(n % 10))
    }
}

/// The character of one decimal digit.
pub open spec fn digit_char(d: nat) -> char {
    if d == 0 {
        '0'
    } else if d == 1 {
        '1'
    } else if d == 2 {
        '2'
    } else if d == 3 {
        '3'
    } else if d == 4 {
        '4'
    } else if d == 5 {
        '5'
    } else if d == 6 {
        '6'
    } else if d == 7 {
        '7'
    } else if d == 8 {
        '8'
    } else {
        '9'
    }
}

fn digit_text(d: u64) -> (t: &'static str)
    requires
        d < 10,
    ensures
        t@ == seq![digit_char(d as nat)],
{
    proof {
        reveal_strlit("0");
        reveal_strlit("1");
        reveal_strlit("2");
        reveal_strlit("3");
        reveal_strlit("4");
        reveal_strlit("5");
        reveal_strlit("6");
        reveal_strlit("7");
        reveal_strlit("8");
        reveal_strlit("9");
    }
    if d == 0 {
        "0"
    } else if d == 1 {
        "1"
    } else if d == 2 {
        "2"
    } else if d == 3 {
        "3"
    } else if d == 4 {
        "4"
    } else if d == 5 {
        "5"
    } else if d == 6 {
        "6"
    } else if d == 7 {
        "7"
    } else if d == 8 {
        "8"
    } else {
        "9"
    }
}

/// `n` in decimal.
pub fn decimal(n: u64) -> (t: String)
    ensures
        t@ == dec(n as nat),
    decreases n,
{
    if n < 10 {
        digit_text(n).to_owned()
    } else {
        let mut head = decimal(n / 10);
        head.append(digit_text(n % 10));
        proof {
            assert(head@ =~= dec(n as nat));
        }
        head
    }
}

/// Appends `n` in decimal.
pub fn append_number(out: &mut String, n: u64)
    ensures
        final(out)@ == old(out)@ + dec(n as nat),
{
    let digits = decimal(n);
    out.append(digits.as_str());
}

/// Is `a` before `b` in code-point order?
pub open spec fn before(a: Seq<char>, b: Seq<char>) -> bool
    decreases b.len(),
{
    if b.len() == 0 {
        false
    } else if a.len() == 0 {
        true
    } else if a[0] == b[0] {
        before(a.skip(1), b.skip(1))
    } else {
        (a[0] as int) < (b[0] as int)
    }
}

/// [`before`] from position `i` on, where the two agree below it.
proof fn lemma_before_skip(a: Seq<char>, b: Seq<char>, i: int)
    requires
        0 <= i <= a.len(),
        i <= b.len(),
        forall|k: int| 0 <= k < i ==> a[k] == b[k],
    ensures
        before(a, b) == before(a.skip(i), b.skip(i)),
    decreases i,
{
    if i == 0 {
        assert(a.skip(0) =~= a);
        assert(b.skip(0) =~= b);
    } else {
        lemma_before_skip(a, b, i - 1);
        let x = a.skip(i - 1);
        let y = b.skip(i - 1);
        assert(x[0] == a[i - 1] && y[0] == b[i - 1]);
        assert(x.skip(1) =~= a.skip(i));
        assert(y.skip(1) =~= b.skip(i));
    }
}

/// Is `a` before `b` in code-point order?
pub fn text_before(a: &str, b: &str) -> (r: bool)
    ensures
        r == before(a@, b@),
{
    let la: usize = a.unicode_len();
    let lb: usize = b.unicode_len();
    let mut i: usize = 0;
    while i < la && i < lb
        invariant
            la == a@.len(),
            lb == b@.len(),
            i <= la,
            i <= lb,
            forall|k: int| 0 <= k < i ==> a@[k] == b@[k],
        decreases la - i,
    {
        let ca: char = a.get_char(i);
        let cb: char = b.get_char(i);
        if ca != cb {
            proof {
                lemma_before_skip(a@, b@, i as int);
                assert(a@.skip(i as int)[0] == ca);
                assert(b@.skip(i as int)[0] == cb);
            }
            return (ca as u32) < (cb as u32);
        }
        i = i + 1;
    }
    proof {
        lemma_before_skip(a@, b@, i as int);
    }
    i == la && i < lb
}

/// The order is irreflexive.
pub proof fn lemma_before_irreflexive(a: Seq<char>)
    ensures
        !before(a, a),
    decreases a.len(),
{
    if a.len() > 0 {
        lemma_before_irreflexive(a.skip(1));
    }
}

/// The order is transitive.
pub proof fn lemma_before_transitive(a: Seq<char>, b: Seq<char>, c: Seq<char>)
    requires
        before(a, b),
        before(b, c),
    ensures
        before(a, c),
    decreases a.len(),
{
    if a.len() > 0 && b.len() > 0 && c.len() > 0 {
        if a[0] == b[0] && b[0] == c[0] {
            lemma_before_transitive(a.skip(1), b.skip(1), c.skip(1));
        }
    }
}

/// Two texts are ordered one way or the other, or are the same.
pub proof fn lemma_before_total(a: Seq<char>, b: Seq<char>)
    ensures
        before(a, b) || before(b, a) || a == b,
    decreases a.len(),
{
    if a.len() > 0 && b.len() > 0 {
        if a[0] == b[0] {
            lemma_before_total(a.skip(1), b.skip(1));
            if a.skip(1) == b.skip(1) {
                assert(a =~= seq![a[0]] + a.skip(1));
                assert(b =~= seq![b[0]] + b.skip(1));
            }
        }
    } else if a.len() == 0 && b.len() == 0 {
        assert(a =~= b);
    }
}

/// The names in strictly ascending order: nothing occurs twice.
pub open spec fn ascending(names: Seq<Seq<char>>) -> bool {
    forall|i: int, j: int| 0 <= i < j < names.len() ==> before(#[trigger] names[i], #[trigger] names[j])
}

/// `name` put into its place in an ascending list, once.
pub open spec fn insert_name(names: Seq<Seq<char>>, name: Seq<char>) -> Seq<Seq<char>>
    decreases names.len(),
{
    if names.len() == 0 {
        seq![name]
    } else if names.last() == name {
        names
    } else if before(names.last(), name) {
        names.push(name)
    } else {
        insert_name(names.drop_last(), name).push(names.last())
    }
}

/// Inserting adds exactly the one name and keeps the order.
pub proof fn lemma_insert_name(names: Seq<Seq<char>>, name: Seq<char>)
    requires
        ascending(names),
    ensures
        ascending(insert_name(names, name)),
        forall|x: Seq<char>| insert_name(names, name).contains(x) <==> names.contains(x) || x == name,
        insert_name(names, name).len() <= names.len() + 1,
        insert_name(names, name).len() >= names.len(),
        names.contains(name) ==> insert_name(names, name) == names,
        !names.contains(name) ==> insert_name(names, name).len() == names.len() + 1,
    decreases names.len(),
{
    let out = insert_name(names, name);
    if names.len() == 0 {
        assert(out[0] == name);
        assert(forall|x: Seq<char>| out.contains(x) ==> x == name);
        assert(out.contains(name));
    } else if names.last() == name {
        assert(names[names.len() - 1] == name);
    } else if before(names.last(), name) {
        assert(out == names.push(name));
        assert(out[names.len() as int] == name);
        assert forall|i: int, j: int| 0 <= i < j < out.len() implies before(
            #[trigger] out[i],
            #[trigger] out[j],
        ) by {
            if j == names.len() {
                if i < names.len() - 1 {
                    assert(before(names[i], names[names.len() - 1]));
                    lemma_before_transitive(names[i], names.last(), name);
                }
            } else {
                assert(before(names[i], names[j]));
            }
        }
        assert forall|x: Seq<char>| out.contains(x) <==> names.contains(x) || x == name by {
            if out.contains(x) {
                let k = choose|k: int| 0 <= k < out.len() && out[k] == x;
                if k < names.len() {
                    assert(names[k] == x);
                }
            }
            if names.contains(x) {
                let k = choose|k: int| 0 <= k < names.len() && names[k] == x;
                assert(out[k] == x);
            }
        }
        if names.contains(name) {
            let k = choose|k: int| 0 <= k < names.len() && names[k] == name;
            if k < names.len() - 1 {
                assert(before(names[k], names[names.len() - 1]));
                lemma_before_transitive(name, names.last(), name);
            }
            lemma_before_irreflexive(name);
        }
    } else {
        let front = names.drop_last();
        let last = names.last();
        assert forall|i: int, j: int| 0 <= i < j < front.len() implies before(
            #[trigger] front[i],
            #[trigger] front[j],
        ) by {
            assert(before(names[i], names[j]));
        }
        lemma_insert_name(front, name);
        lemma_before_total(name, last);
        let inner = insert_name(front, name);
        assert(out == inner.push(last));
        assert forall|i: int, j: int| 0 <= i < j < out.len() implies before(
            #[trigger] out[i],
            #[trigger] out[j],
        ) by {
            if j == inner.len() {
                assert(inner.contains(inner[i]));
                if inner[i] != name {
                    assert(front.contains(inner[i]));
                    let k = choose|k: int| 0 <= k < front.len() && front[k] == inner[i];
                    assert(before(names[k], names[names.len() - 1]));
                }
            } else {
                assert(before(inner[i], inner[j]));
            }
        }
        assert forall|x: Seq<char>| out.contains(x) <==> names.contains(x) || x == name by {
            if out.contains(x) {
                let k = choose|k: int| 0 <= k < out.len() && out[k] == x;
                if k < inner.len() {
                    assert(inner.contains(x));
                    if front.contains(x) {
                        let m = choose|m: int| 0 <= m < front.len() && front[m] == x;
                        assert(names[m] == x);
                    }
                } else {
                    assert(names[names.len() - 1] == x);
                }
            }
            if names.contains(x) {
                let k = choose|k: int| 0 <= k < names.len() && names[k] == x;
                if k < front.len() {
                    assert(front[k] == x);
                    assert(front.contains(x));
                    assert(inner.contains(x));
                    let m = choose|m: int| 0 <= m < inner.len() && inner[m] == x;
                    assert(out[m] == x);
                } else {
                    assert(out[inner.len() as int] == x);
                }
            }
            if x == name {
                assert(inner.contains(x));
                let m = choose|m: int| 0 <= m < inner.len() && inner[m] == x;
                assert(out[m] == x);
            }
        }
        if names.contains(name) {
            let k = choose|k: int| 0 <= k < names.len() && names[k] == name;
            assert(front[k] == name);
            assert(front.contains(name));
            assert(out =~= names);
        } else {
            if front.contains(name) {
                let m = choose|m: int| 0 <= m < front.len() && front[m] == name;
                assert(names[m] == name);
            }
        }
    }
}

/// Puts `name` into its place in an ascending list, once.
pub fn add_name(names: &mut Vec<String>, name: &String)
    ensures
        final(names).deep_view() == insert_name(old(names).deep_view(), name@),
{
    let ghost start = names.deep_view();
    let mut at: usize = names.len();
    let mut settled = false;
    proof {
        assert(start.take(at as int) =~= start);
        assert(start.skip(at as int) =~= Seq::empty());
        assert(insert_name(start, name@) + Seq::<Seq<char>>::empty() =~= insert_name(start, name@));
    }
    while at > 0 && !settled
        invariant
            at <= names.len(),
            names.deep_view() == start,
            start == old(names).deep_view(),
            !settled ==> insert_name(start, name@) == insert_name(start.take(at as int), name@)
                + start.skip(at as int),
            settled ==> {
                &&& at > 0
                &&& start[at - 1] != name@
                &&& before(start[at - 1], name@)
                &&& insert_name(start, name@) == insert_name(start.take(at as int), name@)
                    + start.skip(at as int)
            },
        decreases at + (if settled { 0int } else { 1int }),
    {
        let last = &names[at - 1];
        assert(start[at - 1] == last@);
        assert(start.take(at as int).last() == last@);
        if *last == *name {
            proof {
                assert(start.take(at as int) + start.skip(at as int) =~= start);
            }
            return;
        }
        if text_before(last.as_str(), name.as_str()) {
            settled = true;
        } else {
            proof {
                assert(start.take(at as int).drop_last() =~= start.take(at - 1));
                assert(insert_name(start.take(at - 1), name@).push(start[at - 1]) + start.skip(at as int)
                    =~= insert_name(start.take(at - 1), name@) + start.skip(at - 1));
            }
            at = at - 1;
        }
    }
    names.insert(at, name.clone());
    proof {
        assert(names.deep_view() =~= start.take(at as int).push(name@) + start.skip(at as int));
        if at == 0 {
            assert(start.take(0) =~= Seq::empty());
            assert(insert_name(Seq::<Seq<char>>::empty(), name@) =~= seq![name@]);
            assert(Seq::<Seq<char>>::empty().push(name@) =~= seq![name@]);
        } else {
            assert(start.take(at as int).last() == start[at - 1]);
        }
    }
}

/// Is `name` among the names?
pub fn has_name(names: &Vec<String>, name: &str) -> (r: bool)
    ensures
        r == names.deep_view().contains(name@),
{
    let mut i: usize = 0;
    while i < names.len()
        invariant
            i <= names.len(),
            forall|k: int| 0 <= k < i ==> names.deep_view()[k] != name@,
        decreases names.len() - i,
    {
        if same_text(names[i].as_str(), name) {
            assert(names.deep_view()[i as int] == name@);
            return true;
        }
        i = i + 1;
    }
    false
}

/// A white-space character.
pub open spec fn is_space(c: char) -> bool {
    let n = c as int;
    ||| 9 <= n <= 13
    ||| n == 32
    ||| n == 0x85
    ||| n == 0xa0
    ||| n == 0x1680
    ||| 0x2000 <= n <= 0x200a
    ||| n == 0x2028
    ||| n == 0x2029
    ||| n == 0x202f
    ||| n == 0x205f
    ||| n == 0x3000
}

/// Is `c` a white-space character?
pub fn space(c: char) -> (r: bool)
    ensures
        r == is_space(c),
{
    let n: u32 = c as u32;
    (9 <= n && n <= 13) || n == 32 || n == 0x85 || n == 0xa0 || n == 0x1680 || (0x2000 <= n && n
        <= 0x200a) || n == 0x2028 || n == 0x2029 || n == 0x202f || n == 0x205f || n == 0x3000
}

/// The words of a text: its longest runs without white space, in order.
pub open spec fn words_of(t: Seq<char>) -> Seq<Seq<char>>
    decreases t.len(),
{
    if t.len() == 0 {
        Seq::empty()
    } else {
        let rest = words_of(t.drop_last());
        let c = t.last();
        if is_space(c) {
            rest
        } else if t.len() == 1 || is_space(t[t.len() - 2]) {
            rest.push(seq![c])
        } else {
            rest.drop_last().push(rest.last().push(c))
        }
    }
}

/// A text that does not end in white space has a last word.
proof fn lemma_has_word(t: Seq<char>)
    requires
        t.len() > 0,
        !is_space(t.last()),
    ensures
        words_of(t).len() > 0,
{
}

/// The words of a text.
pub fn split_words(t: &str) -> (r: Vec<String>)
    ensures
        r.deep_view() == words_of(t@),
{
    let n: usize = t.unicode_len();
    let mut out: Vec<String> = Vec::new();
    let mut open = false;
    let mut i: usize = 0;
    assert(out.deep_view() =~= Seq::empty());
    assert(t@.take(0) =~= Seq::empty());
    while i < n
        invariant
            n == t@.len(),
            i <= n,
            out.deep_view() == words_of(t@.take(i as int)),
            open == (i > 0 && !is_space(t@[i - 1])),
        decreases n - i,
    {
        let c: char = t.get_char(i);
        let ghost now = t@.take(i + 1);
        let ghost before = out.deep_view();
        proof {
            assert(now.drop_last() =~= t@.take(i as int));
            assert(now.last() == c);
            if i > 0 {
                assert(now[now.len() - 2] == t@[i - 1]);
            }
        }
        if space(c) {
            open = false;
        } else {
            let letter = t.substring_char(i, i + 1);
            assert(letter@ =~= seq![c]);
            if open {
                proof {
                    lemma_has_word(t@.take(i as int));
                }
                match out.pop() {
                    Some(word) => {
                        assert(before.last() == word@);
                        let mut longer = word;
                        longer.append(letter);
                        assert(longer@ =~= before.last().push(c));
                        out.push(longer);
                        assert(out.deep_view() =~= before.drop_last().push(before.last().push(c)));
                    },
                    None => {},
                }
            } else {
                out.push(letter.to_owned());
                assert(out.deep_view() =~= before.push(seq![c]));
            }
            open = true;
        }
        i = i + 1;
    }
    assert(t@.take(i as int) =~= t@);
    out
}

} // verus!
