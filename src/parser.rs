use vstd::prelude::*;

use crate::lexer::{
    after, lemma_after, lemma_produced_tag, lemma_terminal, scan_tag, tag_name, tag_of, tok_place,
    tok_scan, tok_start, valid_pos, is_terminal, Lexer, Meta, Pos, Scan, Token,
};
use crate::{json_view, Json, JsonV};

verus! {

/// A parse failure: a message and the position of the token where it was
/// detected.
#[derive(Debug)]
pub struct Error {
    pub msg: String,
    pub line: usize,
    pub column: usize,
}

impl Error {
    pub fn message(&self) -> (r: &String)
        ensures
            r == &self.msg,
    {
        &self.msg
    }

    pub fn line(&self) -> (r: usize)
        ensures
            r == self.line,
    {
        self.line
    }

    pub fn column(&self) -> (r: usize)
        ensures
            r == self.column,
    {
        self.column
    }
}

/// The message of a category mismatch.
fn expect_got(expected: &str, got: &str) -> (r: String)
    ensures
        r@ == "Expect "@ + expected@ + ", got "@ + got@,
{
    let mut r = String::from_str("Expect ");
    r.append(expected);
    r.append(", got ");
    r.append(got);
    r
}



/// A parse failure in the model: message, line, column.
pub type PErr = (Seq<char>, int, int);

/// Index of the first entry with key `k` at or after `i`, or -1.
pub open spec fn find_key(e: Seq<(Seq<char>, JsonV)>, k: Seq<char>, i: int) -> int
    decreases e.len() - i,
{
    if i < 0 || i >= e.len() {
        -1
    } else if e[i].0 == k {
        i
    } else {
        find_key(e, k, i + 1)
    }
}

/// The entries after setting `k` to `v`: an entry with key `k` is dropped and
/// the new one is appended, so the last write wins.
pub open spec fn obj_insert(e: Seq<(Seq<char>, JsonV)>, k: Seq<char>, v: JsonV) -> Seq<(Seq<char>, JsonV)> {
    let i = find_key(e, k, 0);
    if 0 <= i < e.len() {
        e.remove(i).push((k, v))
    } else {
        e.push((k, v))
    }
}

/// The keys of the entries are pairwise distinct.
pub open spec fn keys_distinct(e: Seq<(Seq<char>, JsonV)>) -> bool {
    forall|i: int, j: int| 0 <= i < j < e.len() ==> e[i].0 != e[j].0
}

/// `find_key` finds the first entry with the key, and -1 when there is none.
pub proof fn lemma_find_key(e: Seq<(Seq<char>, JsonV)>, k: Seq<char>, i: int)
    requires
        0 <= i <= e.len(),
    ensures
        find_key(e, k, i) == -1 || i <= find_key(e, k, i) < e.len(),
        find_key(e, k, i) == -1 ==> forall|j: int| i <= j < e.len() ==> e[j].0 != k,
        find_key(e, k, i) != -1 ==> e[find_key(e, k, i)].0 == k,
        forall|j: int| i <= j < find_key(e, k, i) ==> e[j].0 != k,
    decreases e.len() - i,
{
    if i < e.len() && e[i].0 != k {
        lemma_find_key(e, k, i + 1);
    }
}

/// Setting a key in an object: the keys stay distinct, the key then maps to
/// the new value (the last write wins), and every other entry is kept.
pub proof fn lemma_obj_insert(e: Seq<(Seq<char>, JsonV)>, k: Seq<char>, v: JsonV)
    requires
        keys_distinct(e),
    ensures
        keys_distinct(obj_insert(e, k, v)),
        obj_insert(e, k, v).last() == (k, v),
        forall|j: int| 0 <= j < obj_insert(e, k, v).len() - 1 ==> obj_insert(e, k, v)[j].0 != k,
        forall|j: int| 0 <= j < e.len() && e[j].0 != k ==> obj_insert(e, k, v).contains(e[j]),
        obj_insert(e, k, v).len() == e.len() + if find_key(e, k, 0) == -1 { 1int } else { 0int },
{
    lemma_find_key(e, k, 0);
    let i = find_key(e, k, 0);
    let r = obj_insert(e, k, v);
    if i != -1 {
        assert forall|j: int| 0 <= j < r.len() - 1 implies r[j] == (if j < i { e[j] } else { e[j + 1] }) by {}
        assert forall|j: int| 0 <= j < e.len() && e[j].0 != k implies r.contains(e[j]) by {
            if j < i {
                assert(r[j] == e[j]);
            } else {
                assert(j != i);
                assert(r[j - 1] == e[j]);
            }
        }
    } else {
        assert forall|j: int| 0 <= j < e.len() && e[j].0 != k implies r.contains(e[j]) by {
            assert(r[j] == e[j]);
        }
    }
}

/// The rest of an object, read from entries with distinct keys, holds
/// entries with distinct keys.
pub proof fn lemma_members_distinct(s: Seq<char>, q: Pos, acc: Seq<(Seq<char>, JsonV)>)
    requires
        keys_distinct(acc),
    ensures
        members(s, q, acc) matches Ok((JsonV::Obj(e), _)) ==> keys_distinct(e),
    decreases s.len() - q.0,
{
    if scan_tag(s, q) == 4 {
        let q1 = after(s, q);
        if ahead(s, q, q1) {
            if let Ok((k, v, q2)) = pair(s, q1) {
                if ahead(s, q, q2) {
                    lemma_obj_insert(acc, k, v);
                    lemma_members_distinct(s, q2, obj_insert(acc, k, v));
                }
            }
        }
    }
}

/// Every object read from the text has distinct keys.
pub proof fn lemma_object_keys_distinct(s: Seq<char>, q: Pos)
    ensures
        object(s, q) matches Ok((JsonV::Obj(e), _)) ==> keys_distinct(e),
{
    let q1 = after(s, q);
    if ahead(s, q, q1) && scan_tag(s, q1) != 2 {
        if let Ok((k, v, q2)) = pair(s, q1) {
            if ahead(s, q, q2) {
                lemma_obj_insert(Seq::empty(), k, v);
                lemma_members_distinct(s, q2, obj_insert(Seq::empty(), k, v));
            }
        }
    }
}

pub open spec fn entries_view(v: Seq<(String, Json)>) -> Seq<(Seq<char>, JsonV)> {
    Seq::new(v.len(), |i: int| (v[i].0@, json_view(v[i].1)))
}

pub open spec fn items_view(v: Seq<Json>) -> Seq<JsonV> {
    Seq::new(v.len(), |i: int| json_view(v[i]))
}

/// The error for a token at `q` that is not of category `expected`: its own
/// message if it is a lexical error, a category mismatch otherwise.
pub open spec fn mismatch(s: Seq<char>, q: Pos, expected: nat) -> PErr {
    let (l, c) = tok_place(s, q);
    match tok_scan(s, q).0 {
        Scan::Fail(err) => (err.text(), l, c),
        _ => ("Expect "@ + tag_name(expected) + ", got "@ + tag_name(scan_tag(s, q)), l, c),
    }
}

/// The leaf value of the token at `q`, or the error of a token that is none.
pub open spec fn leaf(s: Seq<char>, q: Pos) -> Result<JsonV, PErr> {
    let p = tok_start(s, q);
    let (k, e) = tok_scan(s, q);
    let (l, c) = tok_place(s, q);
    match k {
        Scan::Number => Ok(JsonV::Num(s.subrange(p, e))),
        Scan::Str => Ok(JsonV::Str(s.subrange(p + 1, e - 1))),
        Scan::True => Ok(JsonV::Bool(true)),
        Scan::False => Ok(JsonV::Bool(false)),
        Scan::Null => Ok(JsonV::Null),
        Scan::Fail(err) => Err((err.text(), l, c)),
        _ => Err(("Expect "@ + "Primary"@ + ", got "@ + tag_name(scan_tag(s, q)), l, c)),
    }
}

/// Placeholder error of branches that valid positions never reach.
pub open spec fn stuck() -> PErr {
    (Seq::empty(), 0, 0)
}

/// `b` lies strictly after `a`, within the source.
pub open spec fn ahead(s: Seq<char>, a: Pos, b: Pos) -> bool {
    a.0 < b.0 <= s.len()
}

/// Value = Object | Array | Primary, read from the token at `q`; on success,
/// the value and the position of the token that follows it.
pub open spec fn value(s: Seq<char>, q: Pos) -> Result<(JsonV, Pos), PErr>
    decreases s.len() - q.0, 2nat,
{
    if scan_tag(s, q) == 0 {
        object(s, q)
    } else if scan_tag(s, q) == 1 {
        array(s, q)
    } else {
        match leaf(s, q) {
            Ok(v) => Ok((v, after(s, q))),
            Err(e) => Err(e),
        }
    }
}

/// Object = '{' ( Pair (',' Pair)* )? '}', from the '{' at `q`.
pub open spec fn object(s: Seq<char>, q: Pos) -> Result<(JsonV, Pos), PErr>
    decreases s.len() - q.0, 1nat,
{
    let q1 = after(s, q);
    if !ahead(s, q, q1) {
        Err(stuck())
    } else if scan_tag(s, q1) == 2 {
        Ok((JsonV::Obj(Seq::empty()), after(s, q1)))
    } else {
        match pair(s, q1) {
            Ok((k, v, q2)) => if ahead(s, q, q2) {
                members(s, q2, obj_insert(Seq::empty(), k, v))
            } else {
                Err(stuck())
            },
            Err(e) => Err(e),
        }
    }
}

/// The rest of an object after its entries `acc`, from the token at `q`.
pub open spec fn members(s: Seq<char>, q: Pos, acc: Seq<(Seq<char>, JsonV)>) -> Result<(JsonV, Pos), PErr>
    decreases s.len() - q.0, 3nat,
{
    if scan_tag(s, q) == 4 {
        let q1 = after(s, q);
        if !ahead(s, q, q1) {
            Err(stuck())
        } else {
            match pair(s, q1) {
                Ok((k, v, q2)) => if ahead(s, q, q2) {
                    members(s, q2, obj_insert(acc, k, v))
                } else {
                    Err(stuck())
                },
                Err(e) => Err(e),
            }
        }
    } else if scan_tag(s, q) == 2 {
        Ok((JsonV::Obj(acc), after(s, q)))
    } else {
        Err(mismatch(s, q, 2))
    }
}

/// Pair = STRING ':' Value, from the token at `q`.
pub open spec fn pair(s: Seq<char>, q: Pos) -> Result<(Seq<char>, JsonV, Pos), PErr>
    decreases s.len() - q.0, 0nat,
{
    if scan_tag(s, q) != 6 {
        Err(mismatch(s, q, 6))
    } else {
        let key = s.subrange(tok_start(s, q) + 1, tok_scan(s, q).1 - 1);
        let q1 = after(s, q);
        if scan_tag(s, q1) != 5 {
            Err(mismatch(s, q1, 5))
        } else {
            let q2 = after(s, q1);
            if !ahead(s, q, q2) {
                Err(stuck())
            } else {
                match value(s, q2) {
                    Ok((v, q3)) => Ok((key, v, q3)),
                    Err(e) => Err(e),
                }
            }
        }
    }
}

/// Array = '[' ( Value (',' Value)* )? ']', from the '[' at `q`.
pub open spec fn array(s: Seq<char>, q: Pos) -> Result<(JsonV, Pos), PErr>
    decreases s.len() - q.0, 1nat,
{
    let q1 = after(s, q);
    if !ahead(s, q, q1) {
        Err(stuck())
    } else if scan_tag(s, q1) == 3 {
        Ok((JsonV::Arr(Seq::empty()), after(s, q1)))
    } else {
        match value(s, q1) {
            Ok((v, q2)) => if ahead(s, q, q2) {
                elements(s, q2, seq![v])
            } else {
                Err(stuck())
            },
            Err(e) => Err(e),
        }
    }
}

/// The rest of an array after its elements `acc`, from the token at `q`.
pub open spec fn elements(s: Seq<char>, q: Pos, acc: Seq<JsonV>) -> Result<(JsonV, Pos), PErr>
    decreases s.len() - q.0, 3nat,
{
    if scan_tag(s, q) == 4 {
        let q1 = after(s, q);
        if !ahead(s, q, q1) {
            Err(stuck())
        } else {
            match value(s, q1) {
                Ok((v, q2)) => if ahead(s, q, q2) {
                    elements(s, q2, acc.push(v))
                } else {
                    Err(stuck())
                },
                Err(e) => Err(e),
            }
        }
    } else if scan_tag(s, q) == 3 {
        Ok((JsonV::Arr(acc), after(s, q)))
    } else {
        Err(mismatch(s, q, 3))
    }
}

/// A whole text: one value, then the end of input.
pub open spec fn document(s: Seq<char>, q: Pos) -> Result<JsonV, PErr> {
    match value(s, q) {
        Ok((v, q2)) => if scan_tag(s, q2) == 10 {
            Ok(v)
        } else {
            Err(mismatch(s, q2, 10))
        },
        Err(e) => Err(e),
    }
}

/// The value of a JSON text, or the first error in it.
pub open spec fn parse_text(s: Seq<char>) -> Result<JsonV, PErr> {
    document(s, (0, 1, 1))
}

/// `r` and the parser `fin` after it are the outcome `m` of the model.
pub open spec fn value_outcome(m: Result<(JsonV, Pos), PErr>, r: Result<Json, Error>, fin: Parser) -> bool {
    match m {
        Ok((v, q)) => r matches Ok(j) && json_view(j) == v && fin.at() == q && fin.peek() is Some,
        Err((msg, l, c)) => r matches Err(e) && e.msg@ == msg && e.line == l && e.column == c,
    }
}

/// Sets `key` to `value` among the entries: an entry with an equal key is
/// dropped and the new one appended.
pub fn insert_entry(entries: &mut Vec<(String, Json)>, key: String, value: Json)
    ensures
        entries_view(final(entries)@) == obj_insert(entries_view(old(entries)@), key@, json_view(value)),
{
    let ghost o = entries@;
    let ghost ev = entries_view(o);
    let mut i: usize = 0;
    while i < entries.len() && !(entries[i].0 == key)
        invariant
            entries@ == o,
            ev == entries_view(o),
            i <= entries@.len(),
            find_key(ev, key@, 0) == find_key(ev, key@, i as int),
        decreases entries@.len() - i,
    {
        assert(ev[i as int].0 == o[i as int].0@);
        i = i + 1;
    }
    let ghost kv = (key@, json_view(value));
    if i < entries.len() {
        entries.remove(i);
        entries.push((key, value));
        proof {
            assert(entries_view(entries@) =~= ev.remove(i as int).push(kv));
        }
    } else {
        entries.push((key, value));
        proof {
            assert(entries_view(entries@) =~= ev.push(kv));
        }
    }
}

/// A recursive-descent parser holding one token of lookahead.
pub struct Parser {
    lexer: Lexer,
    peeked: Option<Token>,
    prev: Ghost<Lexer>,
}

impl Parser {
    pub closed spec fn lexer(&self) -> Lexer {
        self.lexer
    }

    /// The token of lookahead.
    pub closed spec fn peek(&self) -> Option<Token> {
        self.peeked
    }

    /// The source text.
    pub closed spec fn source(&self) -> Seq<char> {
        self.lexer.source()
    }

    /// The position from which the token of lookahead was read.
    pub closed spec fn at(&self) -> Pos {
        self.prev@.at()
    }

    pub closed spec fn wf(&self) -> bool {
        &&& self.lexer.wf()
        &&& self.prev@.wf()
        &&& self.prev@.source() == self.lexer.source()
        &&& (self.peeked is None ==> self.lexer.done())
        &&& (self.peeked matches Some(t) ==> !self.prev@.done() && self.prev@.produces(t, self.lexer))
    }

    pub open spec fn measure(&self) -> nat {
        self.lexer().measure()
    }

    proof fn lemma_wf(&self)
        requires
            self.wf(),
        ensures
            valid_pos(self.source(), self.at()),
            self.peek() matches Some(t) ==> {
                &&& tag_of(t.lexeme) == scan_tag(self.source(), self.at())
                &&& self.lexer().at() == after(self.source(), self.at())
                &&& !is_terminal(t.lexeme) ==> !self.lexer().done()
                &&& t.lexeme == Meta::Eof ==> self.lexer().done()
                &&& (t.line as int, t.column as int) == tok_place(self.source(), self.at())
                &&& tok_scan(self.source(), self.at()).0 matches Scan::Fail(err) ==> t.lexeme == Meta::Error(err)
                &&& !(tok_scan(self.source(), self.at()).0 is Fail) ==> !(t.lexeme is Error)
            },
    {
        crate::lexer::lemma_valid_at(self.prev@);
        if self.peeked is Some {
            lemma_produced_tag(self.prev@, self.peeked->0, self.lexer);
            lemma_terminal(self.prev@, self.peeked->0, self.lexer);
        }
    }

    pub fn new(lexer: Lexer) -> (r: Parser)
        requires
            lexer.wf(),
        ensures
            r.wf(),
            r.source() == lexer.source(),
            r.at() == lexer.at(),
            !lexer.done() ==> r.peek() is Some,
    {
        let ghost prev = lexer;
        let mut lexer = lexer;
        let peeked = lexer.next_token();
        Parser { lexer, peeked, prev: Ghost(prev) }
    }

    /// Parses one value followed by the end of input.
    pub fn parse(&mut self) -> (r: Result<Json, Error>)
        requires
            old(self).wf(),
            old(self).peek() is Some,
        ensures
            final(self).wf(),
            match document(old(self).source(), old(self).at()) {
                Ok(v) => r matches Ok(j) && json_view(j) == v,
                Err((msg, l, c)) => r matches Err(e) && e.msg@ == msg && e.line == l && e.column == c,
            },
    {
        let res = match self.json() {
            Ok(x) => x,
            Err(e) => {
                return Err(e);
            },
        };
        if let Err(e) = self.consume(&Meta::Eof) {
            return Err(e);
        }
        Ok(res)
    }

    fn advance_unchecked(&mut self) -> (r: Token)
        requires
            old(self).wf(),
            old(self).peek() is Some,
        ensures
            final(self).wf(),
            final(self).source() == old(self).source(),
            r == old(self).peek()->0,
            final(self).at() == after(old(self).source(), old(self).at()),
            final(self).measure() <= old(self).measure(),
            !is_terminal(r.lexeme) ==> final(self).peek() is Some && final(self).measure()
                < old(self).measure(),
            old(self).lexer().done() ==> final(self).lexer() == old(self).lexer(),
    {
        proof {
            self.lemma_wf();
        }
        let ghost prev = self.lexer;
        let mut next = self.lexer.next_token();
        std::mem::swap(&mut self.peeked, &mut next);
        self.prev = Ghost(prev);
        next.unwrap()
    }

    fn consume(&mut self, expected: &Meta) -> (r: Result<Token, Error>)
        requires
            old(self).wf(),
            old(self).peek() is Some,
        ensures
            final(self).wf(),
            final(self).source() == old(self).source(),
            final(self).measure() <= old(self).measure(),
            ({
                let s = old(self).source();
                let q = old(self).at();
                let t = old(self).peek()->0;
                if scan_tag(s, q) == tag_of(*expected) {
                    &&& r == Ok::<Token, Error>(t)
                    &&& final(self).at() == after(s, q)
                    &&& !is_terminal(t.lexeme) ==> final(self).peek() is Some && final(self).measure()
                        < old(self).measure()
                } else {
                    &&& r matches Err(e) && (e.msg@, e.line as int, e.column as int) == mismatch(
                        s,
                        q,
                        tag_of(*expected),
                    )
                    &&& *final(self) == *old(self)
                }
            }),
    {
        proof {
            self.lemma_wf();
        }
        let (same, line, column) = match &self.peeked {
            Some(t) => (t.lexeme.same_type(expected), t.line, t.column),
            None => (false, 0, 0),
        };
        if same {
            return Ok(self.advance_unchecked());
        }
        match &self.peeked {
            Some(t) => match &t.lexeme {
                Meta::Error(e) => Err(Error { msg: e.message().to_owned(), line, column }),
                other => Err(Error { msg: expect_got(expected.meta_type(), other.meta_type()), line, column }),
            },
            None => Err(Error { msg: String::new(), line, column }),
        }
    }

    fn json(&mut self) -> (r: Result<Json, Error>)
        requires
            old(self).wf(),
            old(self).peek() is Some,
        ensures
            final(self).wf(),
            final(self).source() == old(self).source(),
            final(self).measure() <= old(self).measure(),
            old(self).at().0 <= final(self).at().0,
            value_outcome(value(old(self).source(), old(self).at()), r, *final(self)),
        decreases old(self).measure(), 1nat,
    {
        if self.peek_is(&Meta::LeftBrace) {
            self.object()
        } else if self.peek_is(&Meta::LeftSquare) {
            self.array()
        } else {
            self.primary()
        }
    }

    fn read_kv(&mut self) -> (r: Result<(String, Json), Error>)
        requires
            old(self).wf(),
            old(self).peek() is Some,
        ensures
            final(self).wf(),
            final(self).source() == old(self).source(),
            final(self).measure() <= old(self).measure(),
            old(self).at().0 <= final(self).at().0,
            match pair(old(self).source(), old(self).at()) {
                Ok((k, v, q)) => r matches Ok((ks, j)) && ks@ == k && json_view(j) == v && final(self).at()
                    == q && final(self).peek() is Some,
                Err((msg, l, c)) => r matches Err(e) && e.msg@ == msg && e.line == l && e.column == c,
            },
        decreases old(self).measure(), 0nat,
    {
        let ghost s = self.source();
        let ghost q = self.at();
        proof {
            self.lemma_wf();
            lemma_after(s, q);
        }
        let tok = match self.consume(&Meta::StringLiteral(String::new())) {
            Ok(x) => x,
            Err(e) => {
                return Err(e);
            },
        };
        let key = match tok.lexeme {
            Meta::StringLiteral(k) => k,
            _ => {
                proof {
                    assert(false);
                }
                String::new()
            },
        };
        proof {
            self.lemma_wf();
            lemma_after(s, self.at());
        }
        if let Err(e) = self.consume(&Meta::Colon) {
            return Err(e);
        }
        let value = match self.json() {
            Ok(x) => x,
            Err(e) => {
                return Err(e);
            },
        };
        Ok((key, value))
    }

    fn object(&mut self) -> (r: Result<Json, Error>)
        requires
            old(self).wf(),
            old(self).peek() is Some,
            scan_tag(old(self).source(), old(self).at()) == 0,
        ensures
            final(self).wf(),
            final(self).source() == old(self).source(),
            final(self).measure() < old(self).measure(),
            old(self).at().0 <= final(self).at().0,
            value_outcome(object(old(self).source(), old(self).at()), r, *final(self)),
        decreases old(self).measure(), 0nat,
    {
        let ghost s = self.source();
        let ghost q = self.at();
        proof {
            self.lemma_wf();
            lemma_after(s, q);
        }
        if let Err(e) = self.consume(&Meta::LeftBrace) {
            return Err(e);
        }
        proof {
            self.lemma_wf();
            lemma_after(s, self.at());
        }
        if self.peek_is(&Meta::RightBrace) {
            if let Err(e) = self.consume(&Meta::RightBrace) {
                return Err(e);
            }
            let r = Json::Object(Vec::new());
            proof {
                assert(json_view(r)->Obj_0 =~= Seq::<(Seq<char>, JsonV)>::empty());
            }
            return Ok(r);
        }
        let mut result: Vec<(String, Json)> = Vec::new();
        let (k, v) = match self.read_kv() {
            Ok(x) => x,
            Err(e) => {
                return Err(e);
            },
        };
        proof {
            assert(entries_view(result@) =~= Seq::<(Seq<char>, JsonV)>::empty());
        }
        proof {
            self.lemma_wf();
        }
        insert_entry(&mut result, k, v);
        while self.peek_is(&Meta::Comma)
            invariant
                self.wf(),
                self.peek() is Some,
                self.source() == s,
                s == old(self).source(),
                q == old(self).at(),
                self.measure() < old(self).measure(),
                q.0 < self.at().0,
                object(s, q) == members(s, self.at(), entries_view(result@)),
            decreases self.measure(),
        {
            let ghost q1 = self.at();
            proof {
                self.lemma_wf();
                lemma_after(s, q1);
            }
            self.advance_unchecked();
            let (k, v) = match self.read_kv() {
                Ok(x) => x,
                Err(e) => {
                    return Err(e);
                },
            };
            proof {
                self.lemma_wf();
            }
            insert_entry(&mut result, k, v);
        }
        proof {
            self.lemma_wf();
        }
        if let Err(e) = self.consume(&Meta::RightBrace) {
            return Err(e);
        }
        let r = Json::Object(result);
        proof {
            assert(json_view(r)->Obj_0 =~= entries_view(result@));
        }
        Ok(r)
    }

    fn array(&mut self) -> (r: Result<Json, Error>)
        requires
            old(self).wf(),
            old(self).peek() is Some,
            scan_tag(old(self).source(), old(self).at()) == 1,
        ensures
            final(self).wf(),
            final(self).source() == old(self).source(),
            final(self).measure() < old(self).measure(),
            old(self).at().0 <= final(self).at().0,
            value_outcome(array(old(self).source(), old(self).at()), r, *final(self)),
        decreases old(self).measure(), 0nat,
    {
        let ghost s = self.source();
        let ghost q = self.at();
        proof {
            self.lemma_wf();
            lemma_after(s, q);
        }
        if let Err(e) = self.consume(&Meta::LeftSquare) {
            return Err(e);
        }
        proof {
            self.lemma_wf();
            lemma_after(s, self.at());
        }
        if self.peek_is(&Meta::RightSquare) {
            if let Err(e) = self.consume(&Meta::RightSquare) {
                return Err(e);
            }
            let r = Json::Array(Vec::new());
            proof {
                assert(json_view(r)->Arr_0 =~= Seq::<JsonV>::empty());
            }
            return Ok(r);
        }
        let mut result: Vec<Json> = Vec::new();
        let v = match self.json() {
            Ok(x) => x,
            Err(e) => {
                return Err(e);
            },
        };
        result.push(v);
        proof {
            self.lemma_wf();
            assert(items_view(result@) =~= seq![json_view(v)]);
        }
        while self.peek_is(&Meta::Comma)
            invariant
                self.wf(),
                self.peek() is Some,
                self.source() == s,
                s == old(self).source(),
                q == old(self).at(),
                self.measure() < old(self).measure(),
                q.0 < self.at().0,
                array(s, q) == elements(s, self.at(), items_view(result@)),
            decreases self.measure(),
        {
            let ghost q1 = self.at();
            proof {
                self.lemma_wf();
                lemma_after(s, q1);
            }
            self.advance_unchecked();
            let v = match self.json() {
                Ok(x) => x,
                Err(e) => {
                    return Err(e);
                },
            };
            let ghost before = result@;
            result.push(v);
            proof {
                self.lemma_wf();
                assert(items_view(result@) =~= items_view(before).push(json_view(v)));
            }
        }
        proof {
            self.lemma_wf();
        }
        if let Err(e) = self.consume(&Meta::RightSquare) {
            return Err(e);
        }
        let r = Json::Array(result);
        proof {
            assert(json_view(r)->Arr_0 =~= items_view(result@));
        }
        Ok(r)
    }

    /// Whether the lookahead token is of the category of `m`.
    fn peek_is(&self, m: &Meta) -> (r: bool)
        requires
            self.wf(),
            self.peek() is Some,
        ensures
            r == (scan_tag(self.source(), self.at()) == tag_of(*m)),
    {
        proof {
            self.lemma_wf();
        }
        match &self.peeked {
            Some(t) => t.lexeme.same_type(m),
            None => false,
        }
    }

    fn primary(&mut self) -> (r: Result<Json, Error>)
        requires
            old(self).wf(),
            old(self).peek() is Some,
        ensures
            final(self).wf(),
            final(self).source() == old(self).source(),
            final(self).measure() <= old(self).measure(),
            old(self).at().0 <= final(self).at().0,
            match leaf(old(self).source(), old(self).at()) {
                Ok(v) => r matches Ok(j) && json_view(j) == v && final(self).at() == after(
                    old(self).source(),
                    old(self).at(),
                ) && final(self).peek() is Some,
                Err((msg, l, c)) => r matches Err(e) && e.msg@ == msg && e.line == l && e.column == c,
            },
    {
        proof {
            self.lemma_wf();
            lemma_after(self.source(), self.at());
        }
        let tok = self.advance_unchecked();
        let Token { lexeme, line, column, .. } = tok;
        match lexeme {
            Meta::NullLiteral => Ok(Json::Null),
            Meta::BoolLiteral(b) => Ok(Json::Bool(b)),
            Meta::StringLiteral(s) => Ok(Json::String(s)),
            Meta::NumberLiteral(n) => Ok(Json::Number(n)),
            Meta::Error(e) => Err(Error { msg: e.message().to_owned(), line, column }),
            other => Err(Error { msg: expect_got("Primary", other.meta_type()), line, column }),
        }
    }
}

/// Parses a whole JSON text.
pub fn parse_json(text: &str) -> (r: Result<Json, Error>)
    requires
        text@.len() < usize::MAX,
    ensures
        match parse_text(text@) {
            Ok(v) => r matches Ok(j) && json_view(j) == v,
            Err((msg, l, c)) => r matches Err(e) && e.msg@ == msg && e.line == l && e.column == c,
        },
{
    let mut parser = Parser::new(Lexer::new(text));
    parser.parse()
}

} // verus!
