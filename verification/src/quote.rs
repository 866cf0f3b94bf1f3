//! SQL identifiers in statements.
use vstd::prelude::*;

use crate::text;

verus! {

/// `text` with every double quote doubled.
pub open spec fn doubled(text: Seq<char>) -> Seq<char>
    decreases text.len(),
{
    if text.len() == 0 {
        text
    } else if text.last() == '"' {
        doubled(text.drop_last()).push('"').push('"')
    } else {
        doubled(text.drop_last()).push(text.last())
    }
}

/// An identifier between double quotes.
pub open spec fn always_quoted(name: Seq<char>) -> Seq<char> {
    "\""@ + doubled(name) + "\""@
}

/// Quote an identifier, whatever it is made of.
pub fn quote_ident(name: &str) -> (result: String)
    ensures
        result@ == always_quoted(name@),
{
    let chars = text::chars_of(name);
    let mut out = String::new();
    let mut i: usize = 0;
    while i < chars.len()
        invariant
            i <= chars@.len(),
            out@ == doubled(chars@.take(i as int)),
        decreases chars@.len() - i,
    {
        assert(chars@.take(i + 1).drop_last() =~= chars@.take(i as int));
        let c = chars[i];
        if c == '"' {
            out.push('"');
        }
        out.push(c);
        i = i + 1;
    }
    assert(chars@.take(i as int) =~= name@);
    "\"".to_string().concat(&out).concat("\"")
}

/// How the server writes identifiers: each name with its quoted form. A name
/// that is not listed is written between double quotes.
pub struct Quoting {
    pub entries: Vec<(String, String)>,
}

/// The quoted form of `name` by the first entry for it.
pub open spec fn looked_up(entries: Seq<(String, String)>, name: Seq<char>) -> Seq<char>
    decreases entries.len(),
{
    if entries.len() == 0 {
        always_quoted(name)
    } else if entries[0].0@ == name {
        entries[0].1@
    } else {
        looked_up(entries.drop_first(), name)
    }
}

impl View for Quoting {
    type V = spec_fn(Seq<char>) -> Seq<char>;

    open spec fn view(&self) -> spec_fn(Seq<char>) -> Seq<char> {
        |name: Seq<char>| looked_up(self.entries@, name)
    }
}

impl Quoting {
    /// The quoted form of an identifier.
    pub fn ident(&self, name: &str) -> (result: String)
        ensures
            result@ == self@(name@),
    {
        assert(self.entries@.skip(0) =~= self.entries@);
        let mut i: usize = 0;
        while i < self.entries.len()
            invariant
                i <= self.entries@.len(),
                looked_up(self.entries@, name@) == looked_up(
                    self.entries@.skip(i as int),
                    name@,
                ),
            decreases self.entries@.len() - i,
        {
            assert(self.entries@.skip(i as int).drop_first() =~= self.entries@.skip(i + 1));
            if text::same(&self.entries[i].0, name) {
                return self.entries[i].1.clone();
            }
            i = i + 1;
        }
        quote_ident(name)
    }
}

proof fn lemma_doubled_apart(a: Seq<char>, b: Seq<char>)
    requires
        doubled(a) == doubled(b),
    ensures
        a == b,
    decreases a.len(),
{
    if a.len() == 0 {
        if b.len() > 0 {
            assert(doubled(b).len() > 0);
        }
        assert(a =~= b);
    } else if b.len() == 0 {
        assert(doubled(a).len() > 0);
    } else {
        let x = doubled(a);
        let y = doubled(b);
        let left = doubled(a.drop_last());
        let right = doubled(b.drop_last());
        assert(a.last() == '"' <==> x.last() == '"');
        assert(b.last() == '"' <==> y.last() == '"');
        if a.last() == '"' {
            assert(x.take(x.len() - 2) =~= left);
            assert(y.take(y.len() - 2) =~= right);
        } else {
            assert(x.drop_last() =~= left);
            assert(y.drop_last() =~= right);
        }
        lemma_doubled_apart(a.drop_last(), b.drop_last());
        assert(a =~= a.drop_last().push(a.last()));
        assert(b =~= b.drop_last().push(b.last()));
    }
}

/// Quoting loses nothing: different identifiers are quoted differently.
pub proof fn law_quotes_keep_names_apart(a: Seq<char>, b: Seq<char>)
    requires
        always_quoted(a) == always_quoted(b),
    ensures
        a == b,
{
    reveal_strlit("\"");
    let x = always_quoted(a);
    let y = always_quoted(b);
    assert(x.subrange(1, x.len() - 1) =~= doubled(a));
    assert(y.subrange(1, y.len() - 1) =~= doubled(b));
    lemma_doubled_apart(a, b);
}

/// What a reader makes of the text between two double quotes: two of them stand for one,
/// and one alone ends the identifier too early.
pub open spec fn read_back(inner: Seq<char>) -> Option<Seq<char>>
    decreases inner.len(),
{
    if inner.len() == 0 {
        Some(Seq::empty())
    } else if inner[0] != '"' {
        match read_back(inner.drop_first()) {
            Some(rest) => Some(seq![inner[0]] + rest),
            None => None,
        }
    } else if inner.len() > 1 && inner[1] == '"' {
        match read_back(inner.skip(2)) {
            Some(rest) => Some(seq!['"'] + rest),
            None => None,
        }
    } else {
        None
    }
}

proof fn lemma_read_on(front: Seq<char>, back: Seq<char>)
    requires
        read_back(front) is Some,
        read_back(back) is Some,
    ensures
        read_back(front + back) == Some((read_back(front)->0) + (read_back(back)->0)),
    decreases front.len(),
{
    let all = front + back;
    if front.len() == 0 {
        assert(all =~= back);
        assert((read_back(front)->0) + (read_back(back)->0) =~= read_back(back)->0);
    } else if front[0] != '"' {
        assert(all.drop_first() =~= front.drop_first() + back);
        lemma_read_on(front.drop_first(), back);
        assert((read_back(front)->0) + (read_back(back)->0) =~= seq![front[0]] + ((read_back(
            front.drop_first(),
        )->0) + (read_back(back)->0)));
    } else {
        assert(all.skip(2) =~= front.skip(2) + back);
        lemma_read_on(front.skip(2), back);
        assert((read_back(front)->0) + (read_back(back)->0) =~= seq!['"'] + ((read_back(
            front.skip(2),
        )->0) + (read_back(back)->0)));
    }
}

proof fn lemma_doubled_is_read_back(name: Seq<char>)
    ensures
        read_back(doubled(name)) == Some(name),
    decreases name.len(),
{
    if name.len() > 0 {
        lemma_doubled_is_read_back(name.drop_last());
        let front = doubled(name.drop_last());
        let back = if name.last() == '"' {
            seq!['"', '"']
        } else {
            seq![name.last()]
        };
        reveal_with_fuel(read_back, 2);
        assert(back.skip(2) =~= Seq::empty() || back.len() == 1);
        assert(back.drop_first() =~= Seq::empty() || back.len() == 2);
        assert(read_back(back) == Some(seq![name.last()]));
        lemma_read_on(front, back);
        assert(doubled(name) =~= front + back);
        assert(name =~= name.drop_last() + seq![name.last()]);
    } else {
        assert(name =~= Seq::empty());
    }
}

/// A quoted identifier stands between double quotes, and reads as the identifier, whatever
/// it is made of.
pub proof fn law_quoted_names_are_read_back(name: Seq<char>)
    ensures
        ({
            let quoted = always_quoted(name);
            &&& quoted.len() >= 2
            &&& quoted[0] == '"'
            &&& quoted.last() == '"'
            &&& read_back(quoted.subrange(1, quoted.len() - 1)) == Some(name)
        }),
{
    reveal_strlit("\"");
    let quoted = always_quoted(name);
    assert(quoted.subrange(1, quoted.len() - 1) =~= doubled(name));
    lemma_doubled_is_read_back(name);
}

/// A name is written as the server writes it, where the server was asked, and between
/// double quotes where it was not.
pub proof fn law_listed_names_are_written_as_listed(
    entries: Seq<(String, String)>,
    name: Seq<char>,
    i: int,
)
    ensures
        0 <= i < entries.len() && entries[i].0@ == name && (forall|j: int|
            0 <= j < i ==> (#[trigger] entries[j]).0@ != name) ==> looked_up(entries, name)
            == entries[i].1@,
        (forall|j: int| 0 <= j < entries.len() ==> (#[trigger] entries[j]).0@ != name)
            ==> looked_up(entries, name) == always_quoted(name),
    decreases entries.len(),
{
    if entries.len() > 0 && entries[0].0@ != name {
        let rest = entries.drop_first();
        law_listed_names_are_written_as_listed(rest, name, i - 1);
        assert forall|j: int| 0 <= j < rest.len() implies #[trigger] rest[j] == entries[j + 1] by {}
        if 0 <= i < entries.len() && entries[i].0@ == name && (forall|j: int|
            0 <= j < i ==> (#[trigger] entries[j]).0@ != name) {
            assert(rest[i - 1] == entries[i]);
        }
    }
}

} // verus!
