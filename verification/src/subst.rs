//! The global variable table and the variable substitution engine.
//!
//! An instruction template is expanded once, at parse time: a `%` that is not
//! preceded by a backslash starts a variable token, the token runs to the next
//! space, newline or the end of the template, and the token's name is replaced
//! by the table's value for it (absent names expand to the empty string). The
//! terminating separator is consumed by the substitution. A `%` preceded by a
//! backslash is kept literally, backslash included, and starts no token.

use vstd::prelude::*;

verus! {

/// The global variable table: name/value pairs in insertion order, with
/// unique names. Populated by `export` statements during parsing.
pub struct GlobalTable {
    pub entries: Vec<(Vec<char>, Vec<char>)>,
}

impl View for GlobalTable {
    type V = Map<Seq<char>, Seq<char>>;

    open spec fn view(&self) -> Map<Seq<char>, Seq<char>> {
        Map::new(
            |k: Seq<char>| exists|i: int| 0 <= i < self.entries@.len() && self.entries@[i].0@ == k,
            |k: Seq<char>| {
                let i = choose|i: int| 0 <= i < self.entries@.len() && self.entries@[i].0@ == k;
                self.entries@[i].1@
            },
        )
    }
}

impl GlobalTable {
    /// Names are unique, so each lookup has one answer.
    pub open spec fn wf(&self) -> bool {
        forall|i: int, j: int|
            0 <= i < j < self.entries@.len() ==> self.entries@[i].0@ != self.entries@[j].0@
    }

    pub fn new() -> (r: GlobalTable)
        ensures
            r.wf(),
            r@ == Map::<Seq<char>, Seq<char>>::empty(),
    {
        let t = GlobalTable { entries: Vec::new() };
        proof {
            assert(t@ =~= Map::<Seq<char>, Seq<char>>::empty());
        }
        t
    }

    /// The number of variables defined so far.
    pub fn len(&self) -> (r: usize)
        ensures
            r == self.entries@.len(),
    {
        self.entries.len()
    }

    /// The name and value at one insertion-order position.
    pub fn entry(&self, i: usize) -> (r: (&Vec<char>, &Vec<char>))
        requires
            i < self.entries@.len(),
        ensures
            r.0@ == self.entries@[i as int].0@,
            r.1@ == self.entries@[i as int].1@,
            self.wf() ==> self@.contains_key(r.0@) && self@[r.0@] == r.1@,
    {
        proof {
            if self.wf() {
                let k = self.entries@[i as int].0@;
                assert(exists|j: int| 0 <= j < self.entries@.len() && self.entries@[j].0@ == k);
                let j = choose|j: int| 0 <= j < self.entries@.len() && self.entries@[j].0@ == k;
                assert(j == i as int);
            }
        }
        (&self.entries[i].0, &self.entries[i].1)
    }

    /// Defines or redefines a variable, as a map insertion.
    pub fn insert(&mut self, name: Vec<char>, value: Vec<char>)
        requires
            old(self).wf(),
        ensures
            final(self).wf(),
            final(self)@ == old(self)@.insert(name@, value@),
    {
        let ghost pre = self.entries@;
        let mut i: usize = 0;
        while i < self.entries.len()
            invariant
                old(self).wf(),
                old(self).entries@ == pre,
                self.entries@ == pre,
                i <= pre.len(),
                forall|j: int| 0 <= j < i ==> pre[j].0@ != name@,
            decreases pre.len() - i,
        {
            if eq_entry_name(&self.entries, i, &name) {
                self.entries[i].1 = value;
                proof {
                    assert(forall|a: int, b: int|
                        0 <= a < b < self.entries@.len() ==> self.entries@[a].0@ == pre[a].0@
                            && self.entries@[b].0@ == pre[b].0@);
                    lemma_table_view_update(pre, self.entries@, i as int, name@, value@, *old(self), *self);
                }
                return ;
            }
            i = i + 1;
        }
        self.entries.push((name, value));
        proof {
            assert(forall|j: int| 0 <= j < pre.len() ==> self.entries@[j] == pre[j]);
            assert(self.entries@[pre.len() as int].0@ == name@);
            lemma_table_view_push(pre, self.entries@, name@, value@, *old(self), *self);
        }
    }

    /// The value of a variable, if it is defined.
    pub fn lookup(&self, name: &Vec<char>) -> (r: Option<&Vec<char>>)
        requires
            self.wf(),
        ensures
            match r {
                Some(v) => self@.contains_key(name@) && self@[name@] == v@,
                None => !self@.contains_key(name@),
            },
    {
        let mut i: usize = 0;
        while i < self.entries.len()
            invariant
                self.wf(),
                i <= self.entries@.len(),
                forall|j: int| 0 <= j < i ==> self.entries@[j].0@ != name@,
            decreases self.entries@.len() - i,
        {
            if eq_entry_name(&self.entries, i, name) {
                proof {
                    let k = name@;
                    let j = choose|j: int|
                        0 <= j < self.entries@.len() && self.entries@[j].0@ == k;
                    assert(j == i as int);
                }
                return Some(&self.entries[i].1);
            }
            i = i + 1;
        }
        None
    }
}

fn eq_entry_name(entries: &Vec<(Vec<char>, Vec<char>)>, i: usize, name: &Vec<char>) -> (r: bool)
    requires
        i < entries@.len(),
    ensures
        r <==> entries@[i as int].0@ == name@,
{
    crate::eq_chars(&entries[i].0, name)
}

proof fn lemma_table_view_update(
    pre: Seq<(Vec<char>, Vec<char>)>,
    post: Seq<(Vec<char>, Vec<char>)>,
    i: int,
    name: Seq<char>,
    value: Seq<char>,
    told: GlobalTable,
    tnew: GlobalTable,
)
    requires
        told.wf(),
        told.entries@ == pre,
        tnew.entries@ == post,
        0 <= i < pre.len(),
        post.len() == pre.len(),
        pre[i].0@ == name,
        forall|j: int| 0 <= j < pre.len() ==> post[j].0@ == pre[j].0@,
        post[i].1@ == value,
        forall|j: int| 0 <= j < pre.len() && j != i ==> post[j].1@ == pre[j].1@,
    ensures
        tnew.wf(),
        tnew@ == told@.insert(name, value),
{
    assert forall|a: int, b: int|
        0 <= a < b < post.len() implies post[a].0@ != post[b].0@ by {
        assert(pre[a].0@ != pre[b].0@);
    }
    assert forall|k: Seq<char>| tnew@.contains_key(k) <==> told@.insert(name, value).contains_key(k) by {
        if k == name {
            assert(pre[i].0@ == k);
        }
    }
    assert forall|k: Seq<char>| #[trigger] tnew@.contains_key(k)
        implies tnew@[k] == told@.insert(name, value)[k] by {
        let j = choose|j: int| 0 <= j < post.len() && post[j].0@ == k;
        if k == name {
            assert(j == i) by {
                if j != i {
                    assert(pre[j].0@ == k && pre[i].0@ == k);
                }
            }
        } else {
            assert(told@.contains_key(k)) by {
                assert(pre[j].0@ == k);
            }
            let j2 = choose|j2: int| 0 <= j2 < pre.len() && pre[j2].0@ == k;
            assert(j2 == j) by {
                if j2 != j {
                    assert(pre[j2].0@ == k && pre[j].0@ == k);
                }
            }
        }
    }
    assert(tnew@ =~= told@.insert(name, value));
}

proof fn lemma_table_view_push(
    pre: Seq<(Vec<char>, Vec<char>)>,
    post: Seq<(Vec<char>, Vec<char>)>,
    name: Seq<char>,
    value: Seq<char>,
    told: GlobalTable,
    tnew: GlobalTable,
)
    requires
        told.wf(),
        told.entries@ == pre,
        tnew.entries@ == post,
        post.len() == pre.len() + 1,
        forall|j: int| 0 <= j < pre.len() ==> post[j] == pre[j],
        post[pre.len() as int].0@ == name,
        post[pre.len() as int].1@ == value,
        forall|j: int| 0 <= j < pre.len() ==> pre[j].0@ != name,
    ensures
        tnew.wf(),
        tnew@ == told@.insert(name, value),
{
    assert forall|a: int, b: int|
        0 <= a < b < post.len() implies post[a].0@ != post[b].0@ by {
        if b < pre.len() {
            assert(pre[a].0@ != pre[b].0@);
        } else {
            assert(pre[a].0@ != name);
        }
    }
    assert forall|k: Seq<char>| #[trigger] tnew@.contains_key(k)
        implies tnew@[k] == told@.insert(name, value)[k] by {
        let j = choose|j: int| 0 <= j < post.len() && post[j].0@ == k;
        if k == name {
            assert(j == pre.len()) by {
                if j < pre.len() {
                    assert(pre[j].0@ == name);
                }
            }
        } else {
            assert(j < pre.len());
            assert(told@.contains_key(k)) by {
                assert(pre[j].0@ == k);
            }
            let j2 = choose|j2: int| 0 <= j2 < pre.len() && pre[j2].0@ == k;
            assert(j2 == j) by {
                if j2 != j {
                    assert(pre[j2].0@ == k && pre[j].0@ == k);
                }
            }
        }
    }
    assert forall|k: Seq<char>| told@.insert(name, value).contains_key(k)
        implies tnew@.contains_key(k) by {
        if k == name {
            assert(post[pre.len() as int].0@ == k);
        } else {
            let j2 = choose|j2: int| 0 <= j2 < pre.len() && pre[j2].0@ == k;
            assert(post[j2].0@ == k);
        }
    }
    assert(tnew@ =~= told@.insert(name, value));
}

/// What a variable name expands to: its table value, or empty if undefined.
pub open spec fn expansion_of(g: Map<Seq<char>, Seq<char>>, name: Seq<char>) -> Seq<char> {
    if g.contains_key(name) {
        g[name]
    } else {
        Seq::empty()
    }
}

/// The substitution scan from position `i` with the scan state carried along:
/// `tok` is the start of the open variable token, if one is open; `prev` is
/// the previously read character; `acc` is the output built so far.
pub open spec fn subst_from(
    s: Seq<char>,
    g: Map<Seq<char>, Seq<char>>,
    i: int,
    tok: Option<int>,
    prev: char,
    acc: Seq<char>,
) -> Seq<char>
    decreases s.len() - i,
{
    if i < 0 || i >= s.len() {
        match tok {
            Some(ts) => acc + expansion_of(g, s.subrange(ts, s.len() as int)),
            None => acc,
        }
    } else {
        let c = s[i];
        if c == '%' {
            if prev != '\\' {
                subst_from(s, g, i + 1, Some(i + 1), c, acc)
            } else {
                subst_from(s, g, i + 1, tok, c, acc.push('%'))
            }
        } else if c == ' ' || c == '\n' {
            match tok {
                Some(ts) => subst_from(s, g, i + 1, None, c, acc + expansion_of(g, s.subrange(ts, i))),
                None => subst_from(s, g, i + 1, None, c, acc.push(c)),
            }
        } else {
            match tok {
                Some(_) => subst_from(s, g, i + 1, tok, c, acc),
                None => subst_from(s, g, i + 1, tok, c, acc.push(c)),
            }
        }
    }
}

/// The expansion of a command template against a variable table.
pub open spec fn subst(s: Seq<char>, g: Map<Seq<char>, Seq<char>>) -> Seq<char> {
    subst_from(s, g, 0, None::<int>, ' ', Seq::empty())
}

/// A character that neither starts a variable token nor ends one.
pub open spec fn plain_char(c: char) -> bool {
    c != '%' && c != ' ' && c != '\n'
}

proof fn lemma_subst_plain_copy(
    s: Seq<char>,
    g: Map<Seq<char>, Seq<char>>,
    i: int,
    prev: char,
    acc: Seq<char>,
)
    requires
        0 <= i <= s.len(),
        forall|x: int| i <= x < s.len() ==> plain_char(#[trigger] s[x]),
    ensures
        subst_from(s, g, i, None::<int>, prev, acc) == acc + s.subrange(i, s.len() as int),
    decreases s.len() - i,
{
    if i == s.len() {
        assert(acc + s.subrange(i, s.len() as int) =~= acc);
    } else {
        lemma_subst_plain_copy(s, g, i + 1, s[i], acc.push(s[i]));
        assert(acc.push(s[i]) + s.subrange(i + 1, s.len() as int) =~= acc + s.subrange(
            i,
            s.len() as int,
        ));
    }
}

proof fn lemma_subst_open_token(
    s: Seq<char>,
    g: Map<Seq<char>, Seq<char>>,
    i: int,
    ts: int,
    prev: char,
    acc: Seq<char>,
)
    requires
        0 <= i <= s.len(),
        forall|x: int| i <= x < s.len() ==> plain_char(#[trigger] s[x]),
    ensures
        subst_from(s, g, i, Some(ts), prev, acc) == acc + expansion_of(
            g,
            s.subrange(ts, s.len() as int),
        ),
    decreases s.len() - i,
{
    if i < s.len() {
        lemma_subst_open_token(s, g, i + 1, ts, s[i], acc);
    }
}

/// An undefined variable expands to the empty string: a template that is one
/// variable token whose name the table does not define expands to nothing.
pub proof fn lemma_undefined_expands_empty(s: Seq<char>, g: Map<Seq<char>, Seq<char>>)
    requires
        s.len() >= 1,
        s[0] == '%',
        forall|x: int| 1 <= x < s.len() ==> plain_char(#[trigger] s[x]),
        !g.contains_key(s.subrange(1, s.len() as int)),
    ensures
        subst(s, g) == Seq::<char>::empty(),
{
    lemma_subst_open_token(s, g, 1, 1, '%', Seq::empty());
    assert(Seq::<char>::empty() + Seq::<char>::empty() =~= Seq::<char>::empty());
}

/// A backslash-escaped `%` never starts a token: the template passes through
/// literally, backslash and percent kept, and the table is never consulted —
/// the expansion is the same whatever the table holds.
pub proof fn lemma_escaped_percent_is_literal(
    s: Seq<char>,
    g1: Map<Seq<char>, Seq<char>>,
    g2: Map<Seq<char>, Seq<char>>,
)
    requires
        s.len() >= 2,
        s[0] == '\\',
        s[1] == '%',
        forall|x: int| 2 <= x < s.len() ==> plain_char(#[trigger] s[x]),
    ensures
        subst(s, g1) == s,
        subst(s, g1) == subst(s, g2),
{
    lemma_escaped_percent_literal_one(s, g1);
    lemma_escaped_percent_literal_one(s, g2);
}

proof fn lemma_escaped_percent_literal_one(s: Seq<char>, g: Map<Seq<char>, Seq<char>>)
    requires
        s.len() >= 2,
        s[0] == '\\',
        s[1] == '%',
        forall|x: int| 2 <= x < s.len() ==> plain_char(#[trigger] s[x]),
    ensures
        subst(s, g) == s,
{
    assert(subst(s, g) == subst_from(s, g, 0, None::<int>, ' ', Seq::empty()));
    assert(subst_from(s, g, 0, None::<int>, ' ', Seq::empty()) == subst_from(
        s,
        g,
        1,
        None::<int>,
        '\\',
        Seq::empty().push('\\'),
    ));
    assert(subst_from(s, g, 1, None::<int>, '\\', Seq::empty().push('\\')) == subst_from(
        s,
        g,
        2,
        None::<int>,
        '%',
        Seq::empty().push('\\').push('%'),
    ));
    assert(Seq::empty().push('\\').push('%') =~= seq!['\\', '%']);
    lemma_subst_plain_copy(s, g, 2, '%', seq!['\\', '%']);
    assert(seq!['\\', '%'] + s.subrange(2, s.len() as int) =~= s);
}

/// One fully expanded shell command of a build target.
pub struct BuildInstruction {
    pub command_string: Vec<char>,
}

impl BuildInstruction {
    /// Expands a raw instruction template against the global table.
    pub fn new(source: &Vec<char>, globals: &GlobalTable) -> (r: BuildInstruction)
        requires
            globals.wf(),
        ensures
            r.command_string@ == subst(source@, globals@),
    {
        let mut out: Vec<char> = Vec::new();
        let mut tok: Option<usize> = None;
        let mut prev: char = ' ';
        let mut i: usize = 0;
        while i < source.len()
            invariant
                globals.wf(),
                i <= source@.len(),
                match tok {
                    Some(ts) => ts <= i,
                    None => true,
                },
                subst(source@, globals@) == subst_from(
                    source@,
                    globals@,
                    i as int,
                    match tok {
                        Some(ts) => Some(ts as int),
                        None => None::<int>,
                    },
                    prev,
                    out@,
                ),
            decreases source@.len() - i,
        {
            let c = source[i];
            if c == '%' {
                if prev != '\\' {
                    tok = Some(i + 1);
                } else {
                    out.push('%');
                }
            } else if c == ' ' || c == '\n' {
                match tok {
                    Some(ts) => {
                        push_expansion(&mut out, source, ts, i, globals);
                        tok = None;
                    },
                    None => {
                        out.push(c);
                    },
                }
            } else {
                if tok.is_none() {
                    out.push(c);
                }
            }
            prev = c;
            i = i + 1;
        }
        match tok {
            Some(ts) => {
                push_expansion(&mut out, source, ts, source.len(), globals);
            },
            None => {},
        }
        BuildInstruction { command_string: out }
    }
}

/// Appends the expansion of the token `source[ts..end]` to `out`.
fn push_expansion(
    out: &mut Vec<char>,
    source: &Vec<char>,
    ts: usize,
    end: usize,
    globals: &GlobalTable,
)
    requires
        globals.wf(),
        ts <= end <= source@.len(),
    ensures
        final(out)@ == old(out)@ + expansion_of(globals@, source@.subrange(ts as int, end as int)),
{
    let name = slice_chars(source, ts, end);
    match globals.lookup(&name) {
        Some(v) => {
            append_chars(out, v);
        },
        None => {
            assert(out@ =~= out@ + Seq::<char>::empty());
        },
    }
}

/// Copies `v[a..b]` out as a fresh character vector.
pub fn slice_chars(v: &Vec<char>, a: usize, b: usize) -> (r: Vec<char>)
    requires
        a <= b <= v@.len(),
    ensures
        r@ == v@.subrange(a as int, b as int),
{
    let mut r: Vec<char> = Vec::new();
    let mut i: usize = a;
    while i < b
        invariant
            a <= i <= b <= v@.len(),
            r@ == v@.subrange(a as int, i as int),
        decreases b - i,
    {
        r.push(v[i]);
        proof {
            assert(r@ =~= v@.subrange(a as int, i + 1));
        }
        i = i + 1;
    }
    r
}

/// Appends all of `v` to `out`.
pub fn append_chars(out: &mut Vec<char>, v: &Vec<char>)
    ensures
        final(out)@ == old(out)@ + v@,
{
    let mut i: usize = 0;
    while i < v.len()
        invariant
            i <= v@.len(),
            out@ == old(out)@ + v@.subrange(0, i as int),
        decreases v@.len() - i,
    {
        proof {
            assert(out@ =~= old(out)@ + v@.subrange(0, i as int));
        }
        out.push(v[i]);
        proof {
            assert(out@ =~= old(out)@ + v@.subrange(0, i + 1));
        }
        i = i + 1;
    }
    proof {
        assert(v@.subrange(0, v@.len() as int) =~= v@);
    }
}

} // verus!
