//! HTML nodes: the values that a document tree holds.
use vstd::prelude::*;
use vstd::string::StringExecFns;

verus! {

/// Whether a name comparison respects ASCII case.
#[derive(Clone, Copy, Debug, PartialEq, Eq, Structural)]
pub enum CaseSensitivity {
    CaseSensitive,
    AsciiCaseInsensitive,
}

pub open spec fn is_ascii_upper(c: char) -> bool {
    'A' <= c && c <= 'Z'
}

/// Two characters are equal once ASCII upper case is folded to lower case.
pub open spec fn chars_eq_ignoring_ascii_case(a: char, b: char) -> bool {
    a == b || (is_ascii_upper(a) && a as u32 + 32 == b as u32) || (is_ascii_upper(b) && b as u32
        + 32 == a as u32)
}

pub open spec fn seqs_eq_ignoring_ascii_case(a: Seq<char>, b: Seq<char>) -> bool {
    a.len() == b.len() && forall|i: int|
        0 <= i < a.len() ==> #[trigger] chars_eq_ignoring_ascii_case(a[i], b[i])
}

impl CaseSensitivity {
    pub open spec fn spec_eq(self, a: Seq<char>, b: Seq<char>) -> bool {
        match self {
            CaseSensitivity::CaseSensitive => a == b,
            CaseSensitivity::AsciiCaseInsensitive => seqs_eq_ignoring_ascii_case(a, b),
        }
    }

    /// Compares two names under this case sensitivity.
    pub fn eq(&self, a: &str, b: &str) -> (r: bool)
        ensures
            r == self.spec_eq(a@, b@),
    {
        let n = a.unicode_len();
        if n != b.unicode_len() {
            return false;
        }
        let mut i: usize = 0;
        while i < n
            invariant
                n == a@.len(),
                n == b@.len(),
                i <= n,
                forall|j: int|
                    0 <= j < i ==> match *self {
                        CaseSensitivity::CaseSensitive => a@[j] == b@[j],
                        CaseSensitivity::AsciiCaseInsensitive => chars_eq_ignoring_ascii_case(
                            a@[j],
                            b@[j],
                        ),
                    },
            decreases n - i,
        {
            let x = a.get_char(i);
            let y = b.get_char(i);
            let same = match *self {
                CaseSensitivity::CaseSensitive => x == y,
                CaseSensitivity::AsciiCaseInsensitive => {
                    x == y || ('A' <= x && x <= 'Z' && x as u32 + 32 == y as u32) || ('A' <= y
                        && y <= 'Z' && y as u32 + 32 == x as u32)
                },
            };
            if !same {
                proof {
                    assert(!chars_eq_ignoring_ascii_case(a@[i as int], b@[i as int]) || *self
                        == CaseSensitivity::CaseSensitive);
                    assert(a@[i as int] != b@[i as int] || *self
                        == CaseSensitivity::AsciiCaseInsensitive);
                }
                return false;
            }
            i = i + 1;
        }
        proof {
            if *self == CaseSensitivity::CaseSensitive {
                assert(a@ =~= b@);
            }
        }
        true
    }
}

/// Whether two strings hold the same characters.
pub fn str_eq(a: &str, b: &str) -> (r: bool)
    ensures
        r == (a@ == b@),
{
    CaseSensitivity::CaseSensitive.eq(a, b)
}

/// `a` comes before `b` in code-point order, as `str`'s `<` orders strings.
pub open spec fn lex_lt(a: Seq<char>, b: Seq<char>) -> bool
    decreases a.len(),
{
    if b.len() == 0 {
        false
    } else if a.len() == 0 {
        true
    } else if a[0] != b[0] {
        a[0] < b[0]
    } else {
        lex_lt(a.drop_first(), b.drop_first())
    }
}

/// The order is transitive.
pub proof fn lemma_lex_lt_transitive(a: Seq<char>, b: Seq<char>, c: Seq<char>)
    requires
        lex_lt(a, b),
        lex_lt(b, c),
    ensures
        lex_lt(a, c),
    decreases a.len(),
{
    if a.len() > 0 && b.len() > 0 && c.len() > 0 && a[0] == b[0] && b[0] == c[0] {
        lemma_lex_lt_transitive(a.drop_first(), b.drop_first(), c.drop_first());
    }
}

/// Of two different strings, one comes first.
pub proof fn lemma_lex_lt_total(a: Seq<char>, b: Seq<char>)
    ensures
        a == b || lex_lt(a, b) || lex_lt(b, a),
        !(lex_lt(a, b) && lex_lt(b, a)),
    decreases a.len(),
{
    if a.len() > 0 && b.len() > 0 {
        if a[0] == b[0] {
            lemma_lex_lt_total(a.drop_first(), b.drop_first());
            if a.drop_first() == b.drop_first() {
                assert(a =~= seq![a[0]] + a.drop_first());
                assert(b =~= seq![b[0]] + b.drop_first());
            }
        }
    } else if a.len() == 0 && b.len() == 0 {
        assert(a =~= b);
    }
}

proof fn lemma_lex_lt_skip(a: Seq<char>, b: Seq<char>, i: int)
    requires
        0 <= i <= a.len(),
        i <= b.len(),
        a.subrange(0, i) == b.subrange(0, i),
    ensures
        lex_lt(a, b) == lex_lt(a.subrange(i, a.len() as int), b.subrange(i, b.len() as int)),
    decreases i,
{
    if i > 0 {
        assert(a[0] == a.subrange(0, i)[0]);
        assert(b[0] == b.subrange(0, i)[0]);
        assert(a.drop_first().subrange(0, i - 1) =~= a.subrange(0, i).drop_first());
        assert(b.drop_first().subrange(0, i - 1) =~= b.subrange(0, i).drop_first());
        lemma_lex_lt_skip(a.drop_first(), b.drop_first(), i - 1);
        assert(a.drop_first().subrange(i - 1, a.len() - 1) =~= a.subrange(i, a.len() as int));
        assert(b.drop_first().subrange(i - 1, b.len() - 1) =~= b.subrange(i, b.len() as int));
    } else {
        assert(a.subrange(0, a.len() as int) =~= a);
        assert(b.subrange(0, b.len() as int) =~= b);
    }
}

/// Whether `a` comes before `b` in code-point order.
pub fn str_lt(a: &str, b: &str) -> (r: bool)
    ensures
        r == lex_lt(a@, b@),
{
    let n = a.unicode_len();
    let m = b.unicode_len();
    let mut i: usize = 0;
    while i < n && i < m
        invariant
            n == a@.len(),
            m == b@.len(),
            i <= n,
            i <= m,
            a@.subrange(0, i as int) == b@.subrange(0, i as int),
        decreases n - i,
    {
        let x = a.get_char(i);
        let y = b.get_char(i);
        if x != y {
            proof {
                lemma_lex_lt_skip(a@, b@, i as int);
                let ra = a@.subrange(i as int, n as int);
                let rb = b@.subrange(i as int, m as int);
                assert(ra[0] == x && rb[0] == y);
            }
            return x < y;
        }
        proof {
            assert(a@.subrange(0, i + 1) =~= a@.subrange(0, i as int).push(x));
            assert(b@.subrange(0, i + 1) =~= b@.subrange(0, i as int).push(y));
        }
        i = i + 1;
    }
    proof {
        lemma_lex_lt_skip(a@, b@, i as int);
    }
    i == n && i < m
}

/// Each string comes before the next.
pub open spec fn strictly_ascending(s: Seq<Seq<char>>) -> bool {
    forall|x: int, y: int| 0 <= x < y < s.len() ==> lex_lt(s[x], s[y])
}

/// Inserts a string that `v` does not hold into an ascending vector.
fn insert_str_sorted(v: &mut Vec<String>, x: String)
    requires
        strictly_ascending(str_views(old(v)@)),
        !str_views(old(v)@).contains(x@),
    ensures
        strictly_ascending(str_views(final(v)@)),
        forall|c: Seq<char>| #[trigger] str_views(final(v)@).contains(c) <==> str_views(old(v)@).contains(c) || c == x@,
{
    let mut i: usize = 0;
    while i < v.len() && str_lt(v[i].as_str(), x.as_str())
        invariant
            i <= v@.len(),
            v@ == old(v)@,
            forall|j: int| 0 <= j < i ==> lex_lt(#[trigger] v@[j]@, x@),
        decreases v@.len() - i,
    {
        i = i + 1;
    }
    let ghost o = v@;
    let ghost xv = x@;
    proof {
        if i < o.len() {
            lemma_lex_lt_total(o[i as int]@, xv);
            assert(str_views(o)[i as int] == o[i as int]@);
            assert(o[i as int]@ != xv);
            assert(lex_lt(xv, o[i as int]@));
        }
    }
    v.insert(i, x);
    proof {
        let ov = str_views(o);
        let nv = str_views(v@);
        assert(v@ =~= o.insert(i as int, v@[i as int]));
        assert(nv =~= ov.insert(i as int, xv));
        assert forall|a: int, b: int| 0 <= a < b < nv.len() implies lex_lt(nv[a], nv[b]) by {
            if b < i {
                assert(nv[a] == ov[a] && nv[b] == ov[b]);
            } else if b == i {
                assert(nv[a] == ov[a]);
            } else if a == i {
                assert(nv[b] == ov[b - 1]);
                if b - 1 > i {
                    assert(lex_lt(ov[i as int], ov[b - 1]));
                    lemma_lex_lt_transitive(xv, ov[i as int], ov[b - 1]);
                }
            } else if a < i {
                assert(nv[a] == ov[a] && nv[b] == ov[b - 1]);
                assert(lex_lt(ov[a], xv));
                if b - 1 > a {
                    assert(lex_lt(ov[a], ov[b - 1]));
                }
            } else {
                assert(nv[a] == ov[a - 1] && nv[b] == ov[b - 1]);
            }
        }
        assert forall|c: Seq<char>| #[trigger] nv.contains(c) <==> ov.contains(c) || c == xv by {
            if nv.contains(c) {
                let t = choose|t: int| 0 <= t < nv.len() && nv[t] == c;
                if t < i {
                    assert(ov[t] == c);
                } else if t > i {
                    assert(ov[t - 1] == c);
                }
            }
            if ov.contains(c) {
                let t = choose|t: int| 0 <= t < ov.len() && ov[t] == c;
                if t < i {
                    assert(nv[t] == c);
                } else {
                    assert(nv[t + 1] == c);
                }
            }
            if c == xv {
                assert(nv[i as int] == c);
            }
        }
    }
}

/// Attributes ordered by name, as a sort by name leaves them.
pub open spec fn sorted_by_name(attrs: Seq<(String, String)>) -> bool {
    forall|x: int, y: int| 0 <= x < y < attrs.len() ==> !lex_lt(attrs[y].0@, attrs[x].0@)
}

/// Inserts an attribute after every attribute whose name does not come after it.
fn insert_by_name(v: &mut Vec<(String, String)>, a: (String, String))
    requires
        sorted_by_name(old(v)@),
    ensures
        sorted_by_name(final(v)@),
        final(v)@.to_multiset() == old(v)@.to_multiset().insert(a),
{
    let mut i: usize = 0;
    while i < v.len() && !str_lt(a.0.as_str(), v[i].0.as_str())
        invariant
            i <= v@.len(),
            v@ == old(v)@,
            forall|j: int| 0 <= j < i ==> !lex_lt(a.0@, #[trigger] v@[j].0@),
        decreases v@.len() - i,
    {
        i = i + 1;
    }
    let ghost o = v@;
    v.insert(i, a);
    proof {
        assert(v@ =~= o.insert(i as int, a));
        assert forall|x: int, y: int| 0 <= x < y < v@.len() implies !lex_lt(v@[y].0@, v@[x].0@) by {
            if y < i {
                assert(v@[x] == o[x] && v@[y] == o[y]);
            } else if y == i {
                assert(v@[x] == o[x]);
                lemma_lex_lt_total(a.0@, o[x].0@);
            } else if x == i {
                assert(v@[y] == o[y - 1]);
                assert(lex_lt(a.0@, o[i as int].0@));
                if y - 1 > i {
                    assert(!lex_lt(o[y - 1].0@, o[i as int].0@));
                }
                if lex_lt(o[y - 1].0@, a.0@) {
                    lemma_lex_lt_transitive(o[y - 1].0@, a.0@, o[i as int].0@);
                    if y - 1 == i {
                        lemma_lex_lt_total(o[i as int].0@, o[i as int].0@);
                    }
                }
            } else if x < i {
                assert(v@[x] == o[x] && v@[y] == o[y - 1]);
            } else {
                assert(v@[x] == o[x - 1] && v@[y] == o[y - 1]);
            }
        }
        o.to_multiset_ensures();
        v@.to_multiset_ensures();
        vstd::seq_lib::to_multiset_insert(o, i as int, a);
    }
}

/// A doctype.
#[derive(Clone, Debug)]
pub struct Doctype {
    /// The doctype name.
    pub name: String,
    /// The doctype public ID.
    pub public_id: String,
    /// The doctype system ID.
    pub system_id: String,
}

impl Doctype {
    /// Returns the doctype name.
    pub fn name(&self) -> (r: &str)
        ensures
            r@ == self.name@,
    {
        self.name.as_str()
    }

    /// Returns the doctype public ID.
    pub fn public_id(&self) -> (r: &str)
        ensures
            r@ == self.public_id@,
    {
        self.public_id.as_str()
    }

    /// Returns the doctype system ID.
    pub fn system_id(&self) -> (r: &str)
        ensures
            r@ == self.system_id@,
    {
        self.system_id.as_str()
    }
}

/// An HTML comment.
#[derive(Clone, Debug)]
pub struct Comment {
    /// The comment text.
    pub comment: String,
}

/// HTML text.
#[derive(Clone, Debug)]
pub struct Text {
    /// The text.
    pub text: String,
}

/// An HTML processing instruction.
#[derive(Clone, Debug)]
pub struct ProcessingInstruction {
    /// The PI target.
    pub target: String,
    /// The PI data.
    pub data: String,
}

/// An HTML element: its name and its attributes in document order.
#[derive(Clone, Debug)]
pub struct Element {
    pub name: String,
    pub attrs: Vec<(String, String)>,
}

/// The position of the first attribute named `key`, if any.
pub open spec fn first_attr_index(attrs: Seq<(String, String)>, key: Seq<char>) -> Option<int> {
    if exists|i: int| 0 <= i < attrs.len() && #[trigger] attrs[i].0@ == key {
        let i = choose|i: int|
            0 <= i < attrs.len() && #[trigger] attrs[i].0@ == key && forall|j: int|
                0 <= j < i ==> #[trigger] attrs[j].0@ != key;
        Some(i)
    } else {
        None
    }
}

/// The value of the first attribute named `key`, if any.
pub open spec fn attr_value(attrs: Seq<(String, String)>, key: Seq<char>) -> Option<Seq<char>> {
    match first_attr_index(attrs, key) {
        Some(i) => Some(attrs[i].1@),
        None => None,
    }
}

pub open spec fn class_key() -> Seq<char> {
    seq!['c', 'l', 'a', 's', 's']
}

pub open spec fn id_key() -> Seq<char> {
    seq!['i', 'd']
}

/// The classes of an element: the values of its `class` attributes, each once,
/// in the order in which they first appear.
pub open spec fn classes_of(attrs: Seq<(String, String)>) -> Seq<Seq<char>>
    decreases attrs.len(),
{
    if attrs.len() == 0 {
        Seq::empty()
    } else {
        let rest = classes_of(attrs.drop_last());
        let last = attrs.last();
        if last.0@ == class_key() && !rest.contains(last.1@) {
            rest.push(last.1@)
        } else {
            rest
        }
    }
}

proof fn lemma_first_attr_index(attrs: Seq<(String, String)>, key: Seq<char>, i: int)
    requires
        0 <= i < attrs.len(),
        attrs[i].0@ == key,
        forall|j: int| 0 <= j < i ==> #[trigger] attrs[j].0@ != key,
    ensures
        first_attr_index(attrs, key) == Some(i),
{
    let k = choose|k: int|
        0 <= k < attrs.len() && #[trigger] attrs[k].0@ == key && forall|j: int|
            0 <= j < k ==> #[trigger] attrs[j].0@ != key;
    if k < i {
        assert(attrs[k].0@ != key);
    }
    if i < k {
        assert(attrs[i].0@ != key);
    }
}

impl Element {
    /// Creates an element from its name and attributes; the attributes are
    /// kept ordered by name.
    pub fn new(name: String, attrs: Vec<(String, String)>) -> (r: Element)
        ensures
            r.name@ == name@,
            r.attrs@.to_multiset() == attrs@.to_multiset(),
            sorted_by_name(r.attrs@),
    {
        let mut sorted: Vec<(String, String)> = Vec::new();
        let mut rest = attrs;
        let ghost all = rest@;
        let n = rest.len();
        proof {
            assert(all.subrange(n as int, n as int) =~= Seq::<(String, String)>::empty());
            vstd::multiset::lemma_multiset_empty_len(sorted@.to_multiset());
            vstd::multiset::lemma_multiset_empty_len(all.subrange(n as int, n as int).to_multiset());
            assert(sorted@.to_multiset() =~= all.subrange(n as int, n as int).to_multiset());
        }
        while rest.len() > 0
            invariant
                n == all.len(),
                rest@.len() <= n,
                rest@ == all.take(rest@.len() as int),
                sorted_by_name(sorted@),
                sorted@.to_multiset() == all.subrange(rest@.len() as int, n as int).to_multiset(),
            decreases rest@.len(),
        {
            let ghost k = rest@.len() as int;
            let a = rest.pop().unwrap();
            proof {
                assert(a == all[k - 1]);
                assert(rest@ =~= all.take(k - 1));
                let tail = all.subrange(k, n as int);
                assert(all.subrange(k - 1, n as int) =~= tail.insert(0, a));
                vstd::seq_lib::to_multiset_insert(tail, 0, a);
            }
            insert_by_name(&mut sorted, a);
        }
        proof {
            assert(all.subrange(0, n as int) =~= all);
        }
        Element { name, attrs: sorted }
    }

    /// Returns the element name.
    pub fn name(&self) -> (r: &str)
        ensures
            r@ == self.name@,
    {
        self.name.as_str()
    }

    /// Returns the value of an attribute.
    pub fn attr(&self, attr: &str) -> (r: Option<&str>)
        ensures
            match r {
                Some(v) => attr_value(self.attrs@, attr@) == Some(v@),
                None => attr_value(self.attrs@, attr@).is_none(),
            },
    {
        let mut i: usize = 0;
        while i < self.attrs.len()
            invariant
                i <= self.attrs@.len(),
                forall|j: int| 0 <= j < i ==> #[trigger] self.attrs@[j].0@ != attr@,
            decreases self.attrs@.len() - i,
        {
            if str_eq(self.attrs[i].0.as_str(), attr) {
                proof {
                    lemma_first_attr_index(self.attrs@, attr@, i as int);
                }
                return Some(self.attrs[i].1.as_str());
            }
            i = i + 1;
        }
        None
    }
}

/// The views of a vector of strings.
pub open spec fn str_views(v: Seq<String>) -> Seq<Seq<char>> {
    v.map_values(|x: String| x@)
}

/// Whether `v` holds a string equal to `s`.
pub fn contains_str(v: &Vec<String>, s: &str) -> (r: bool)
    ensures
        r == str_views(v@).contains(s@),
{
    let mut i: usize = 0;
    while i < v.len()
        invariant
            i <= v@.len(),
            forall|j: int| 0 <= j < i ==> #[trigger] v@[j]@ != s@,
        decreases v@.len() - i,
    {
        if str_eq(v[i].as_str(), s) {
            assert(str_views(v@)[i as int] == s@);
            return true;
        }
        i = i + 1;
    }
    proof {
        if str_views(v@).contains(s@) {
            let k = choose|k: int| 0 <= k < str_views(v@).len() && str_views(v@)[k] == s@;
            assert(v@[k]@ != s@);
        }
    }
    false
}

/// The attributes as they stand in a start tag: ` name="value"` for each.
pub open spec fn attrs_text(attrs: Seq<(String, String)>) -> Seq<char>
    decreases attrs.len(),
{
    if attrs.len() == 0 {
        Seq::empty()
    } else {
        attrs_text(attrs.drop_last()) + seq![' '] + attrs.last().0@ + seq!['=', '"'] + attrs.last().1@
            + seq!['"']
    }
}

/// The start tag of an element: `<name a="x" b="y">`.
pub open spec fn start_tag_of(e: Element) -> Seq<char> {
    seq!['<'] + e.name@ + attrs_text(e.attrs@) + seq!['>']
}

impl Element {
    /// Returns the start tag of the element, attributes in document order.
    pub fn start_tag(&self) -> (r: String)
        ensures
            r@ == start_tag_of(*self),
    {
        let open = "<";
        let space = " ";
        let eq_quote = "=\"";
        let quote = "\"";
        let close = ">";
        proof {
            reveal_strlit("<");
            reveal_strlit(" ");
            reveal_strlit("=\"");
            reveal_strlit("\"");
            reveal_strlit(">");
        }
        let mut out = String::from_str(open);
        out.append(self.name.as_str());
        let mut i: usize = 0;
        while i < self.attrs.len()
            invariant
                i <= self.attrs@.len(),
                open@ == seq!['<'],
                space@ == seq![' '],
                eq_quote@ == seq!['=', '"'],
                quote@ == seq!['"'],
                out@ == seq!['<'] + self.name@ + attrs_text(self.attrs@.take(i as int)),
            decreases self.attrs@.len() - i,
        {
            proof {
                assert(self.attrs@.take(i + 1).drop_last() =~= self.attrs@.take(i as int));
            }
            out.append(space);
            out.append(self.attrs[i].0.as_str());
            out.append(eq_quote);
            out.append(self.attrs[i].1.as_str());
            out.append(quote);
            proof {
                let t = self.attrs@.take(i + 1);
                assert(t.last() == self.attrs@[i as int]);
                assert(out@ =~= seq!['<'] + self.name@ + attrs_text(t));
            }
            i = i + 1;
        }
        out.append(close);
        proof {
            assert(self.attrs@.take(i as int) =~= self.attrs@);
        }
        out
    }

    /// Returns the element ID: the value of its first `id` attribute.
    pub fn id(&self) -> (r: Option<&str>)
        ensures
            match r {
                Some(v) => attr_value(self.attrs@, id_key()) == Some(v@),
                None => attr_value(self.attrs@, id_key()).is_none(),
            },
    {
        let key = "id";
        proof {
            reveal_strlit("id");
            assert(key@ =~= id_key());
        }
        self.attr(key)
    }

    /// Returns the element's classes, each once, in ascending order.
    pub fn classes(&self) -> (r: Vec<String>)
        ensures
            forall|c: Seq<char>| #[trigger] str_views(r@).contains(c) <==> classes_of(self.attrs@).contains(c),
            strictly_ascending(str_views(r@)),
    {
        let found = self.classes_in_order();
        let mut out: Vec<String> = Vec::new();
        let mut k: usize = 0;
        while k < found.len()
            invariant
                k <= found@.len(),
                str_views(found@) == classes_of(self.attrs@),
                str_views(found@).no_duplicates(),
                strictly_ascending(str_views(out@)),
                forall|c: Seq<char>| #[trigger] str_views(out@).contains(c) <==> str_views(found@).take(k as int).contains(c),
            decreases found@.len() - k,
        {
            proof {
                let f = str_views(found@);
                let ft = f.take(k as int);
                let fn1 = f.take(k + 1);
                assert(fn1 =~= ft.push(f[k as int]));
                assert(!ft.contains(f[k as int])) by {
                    if ft.contains(f[k as int]) {
                        let j = choose|j: int| 0 <= j < k && #[trigger] ft[j] == f[k as int];
                        assert(f[j] == f[k as int]);
                    }
                }
                assert(found@[k as int]@ == f[k as int]);
                assert forall|c: Seq<char>| fn1.contains(c) <==> ft.contains(c) || c == f[k as int] by {
                    if fn1.contains(c) {
                        let j = choose|j: int| 0 <= j < k + 1 && #[trigger] fn1[j] == c;
                        if j < k {
                            assert(ft[j] == c);
                        }
                    }
                    if ft.contains(c) {
                        let j = choose|j: int| 0 <= j < k && #[trigger] ft[j] == c;
                        assert(fn1[j] == c);
                    }
                    if c == f[k as int] {
                        assert(fn1[k as int] == c);
                    }
                }
            }
            insert_str_sorted(&mut out, found[k].clone());
            k = k + 1;
        }
        proof {
            assert(str_views(found@).take(k as int) =~= str_views(found@));
        }
        out
    }

    /// Returns the element's classes, each once, in order of first appearance.
    fn classes_in_order(&self) -> (r: Vec<String>)
        ensures
            str_views(r@) == classes_of(self.attrs@),
            str_views(r@).no_duplicates(),
    {
        let key = "class";
        proof {
            reveal_strlit("class");
            assert(key@ =~= class_key());
        }
        let mut out: Vec<String> = Vec::new();
        let mut i: usize = 0;
        while i < self.attrs.len()
            invariant
                i <= self.attrs@.len(),
                key@ == class_key(),
                str_views(out@) == classes_of(self.attrs@.take(i as int)),
                str_views(out@).no_duplicates(),
            decreases self.attrs@.len() - i,
        {
            proof {
                assert(self.attrs@.take(i + 1).drop_last() =~= self.attrs@.take(i as int));
            }
            if str_eq(self.attrs[i].0.as_str(), key) && !contains_str(&out, self.attrs[i].1.as_str()) {
                out.push(self.attrs[i].1.clone());
                proof {
                    assert(str_views(out@) =~= classes_of(self.attrs@.take(i as int)).push(
                        self.attrs@[i as int].1@,
                    ));
                    let v = str_views(out@);
                    assert forall|a: int, b: int| 0 <= a < b < v.len() implies v[a] != v[b] by {
                        if b == v.len() - 1 {
                            assert(classes_of(self.attrs@.take(i as int)).contains(v[a]));
                        }
                    }
                }
            }
            i = i + 1;
        }
        proof {
            assert(self.attrs@.take(i as int) =~= self.attrs@);
        }
        out
    }

    /// Returns true if the element has the class, compared under `case_sensitive`.
    pub fn has_class(&self, class: &str, case_sensitive: CaseSensitivity) -> (r: bool)
        ensures
            r == exists|i: int|
                0 <= i < classes_of(self.attrs@).len() && case_sensitive.spec_eq(
                    #[trigger] classes_of(self.attrs@)[i],
                    class@,
                ),
    {
        let classes = self.classes_in_order();
        let mut i: usize = 0;
        while i < classes.len()
            invariant
                i <= classes@.len(),
                str_views(classes@) == classes_of(self.attrs@),
                forall|j: int|
                    0 <= j < i ==> !case_sensitive.spec_eq(#[trigger] classes@[j]@, class@),
            decreases classes@.len() - i,
        {
            if case_sensitive.eq(classes[i].as_str(), class) {
                assert(classes_of(self.attrs@)[i as int] == classes@[i as int]@);
                return true;
            }
            i = i + 1;
        }
        proof {
            assert forall|j: int| 0 <= j < classes_of(self.attrs@).len() implies !case_sensitive.spec_eq(
                #[trigger] classes_of(self.attrs@)[j],
                class@,
            ) by {
                assert(classes_of(self.attrs@)[j] == classes@[j]@);
            }
        }
        false
    }

    /// Returns true if the element's ID equals `id` under `case_sensitivity`.
    pub fn has_id(&self, id: &str, case_sensitivity: CaseSensitivity) -> (r: bool)
        ensures
            r == match attr_value(self.attrs@, id_key()) {
                Some(v) => case_sensitivity.spec_eq(id@, v),
                None => false,
            },
    {
        match self.id() {
            Some(v) => case_sensitivity.eq(id, v),
            None => false,
        }
    }

    /// Returns true if the element is a `link` element.
    pub fn is_link(&self) -> (r: bool)
        ensures
            r == (self.name@ == seq!['l', 'i', 'n', 'k']),
    {
        let link = "link";
        proof {
            reveal_strlit("link");
            assert(link@ =~= seq!['l', 'i', 'n', 'k']);
        }
        str_eq(self.name.as_str(), link)
    }

    /// Returns the element's attributes, in document order.
    pub fn attrs(&self) -> (r: &Vec<(String, String)>)
        ensures
            r@ == self.attrs@,
    {
        &self.attrs
    }
}

/// An HTML node.
#[derive(Clone, Debug)]
pub enum Node {
    /// The document root.
    Document,
    /// The fragment root.
    Fragment,
    /// A doctype.
    Doctype(Doctype),
    /// A comment.
    Comment(Comment),
    /// Text.
    Text(Text),
    /// An element.
    Element(Element),
    /// A processing instruction.
    ProcessingInstruction(ProcessingInstruction),
}

impl Node {
    /// Returns true if node is the document root.
    pub fn is_document(&self) -> (r: bool)
        ensures
            r == (self is Document),
    {
        matches!(*self, Node::Document)
    }

    /// Returns true if node is the fragment root.
    pub fn is_fragment(&self) -> (r: bool)
        ensures
            r == (self is Fragment),
    {
        matches!(*self, Node::Fragment)
    }

    /// Returns true if node is a doctype.
    pub fn is_doctype(&self) -> (r: bool)
        ensures
            r == (self is Doctype),
    {
        matches!(*self, Node::Doctype(_))
    }

    /// Returns true if node is a comment.
    pub fn is_comment(&self) -> (r: bool)
        ensures
            r == (self is Comment),
    {
        matches!(*self, Node::Comment(_))
    }

    /// Returns true if node is text.
    pub fn is_text(&self) -> (r: bool)
        ensures
            r == (self is Text),
    {
        matches!(*self, Node::Text(_))
    }

    /// Returns true if node is an element.
    pub fn is_element(&self) -> (r: bool)
        ensures
            r == (self is Element),
    {
        matches!(*self, Node::Element(_))
    }

    /// Returns self as a doctype.
    pub fn as_doctype(&self) -> (r: Option<&Doctype>)
        ensures
            match *self {
                Node::Doctype(d) => r == Some(&d),
                _ => r.is_none(),
            },
    {
        match self {
            Node::Doctype(d) => Some(d),
            _ => None,
        }
    }

    /// Returns self as a comment.
    pub fn as_comment(&self) -> (r: Option<&Comment>)
        ensures
            match *self {
                Node::Comment(c) => r == Some(&c),
                _ => r.is_none(),
            },
    {
        match self {
            Node::Comment(c) => Some(c),
            _ => None,
        }
    }

    /// Returns self as text.
    pub fn as_text(&self) -> (r: Option<&Text>)
        ensures
            match *self {
                Node::Text(t) => r == Some(&t),
                _ => r.is_none(),
            },
    {
        match self {
            Node::Text(t) => Some(t),
            _ => None,
        }
    }

    /// Returns self as an element.
    pub fn as_element(&self) -> (r: Option<&Element>)
        ensures
            match *self {
                Node::Element(e) => r == Some(&e),
                _ => r.is_none(),
            },
    {
        match self {
            Node::Element(e) => Some(e),
            _ => None,
        }
    }

    /// Returns self as a processing instruction.
    pub fn as_processing_instruction(&self) -> (r: Option<&ProcessingInstruction>)
        ensures
            match *self {
                Node::ProcessingInstruction(p) => r == Some(&p),
                _ => r.is_none(),
            },
    {
        match self {
            Node::ProcessingInstruction(p) => Some(p),
            _ => None,
        }
    }
}

} // verus!
