//! The bundle text format: a line scanner for directive lines (`--# key value`)
//! and numeric item literals (`"123"`, `'123'`, `[==[123]==]`).
use vstd::prelude::*;
use crate::text::{all_digits, decimal_of, digits_value, is_digit, lemma_decimal_digits, u64_of, parse_u64, push_chars};
use crate::timestamp::{Timestamp, rfc2822_parsed, parse_rfc2822};

verus! {

/// The classes of characters that the scanner skips over in runs.
#[derive(Clone, Copy)]
pub enum CharClass {
    Blank,
    Digit,
    Equals,
    NonBlank,
    NotNewline,
}

pub open spec fn in_class(c: char, k: CharClass) -> bool {
    match k {
        CharClass::Blank => c == ' ' || c == '\t',
        CharClass::Digit => is_digit(c),
        CharClass::Equals => c == '=',
        CharClass::NonBlank => !(c == ' ' || c == '\t'),
        CharClass::NotNewline => c != '\n',
    }
}

/// The end of the run of characters of class `k` that starts at `i`.
pub open spec fn run_end(l: Seq<char>, i: int, k: CharClass) -> int
    decreases l.len() - i,
{
    if 0 <= i < l.len() && in_class(l[i], k) {
        run_end(l, i + 1, k)
    } else {
        i
    }
}

pub proof fn lemma_run_end(l: Seq<char>, i: int, k: CharClass)
    requires
        0 <= i,
    ensures
        i <= run_end(l, i, k),
        i <= l.len() ==> run_end(l, i, k) <= l.len(),
        run_end(l, i, k) < l.len() ==> !in_class(l[run_end(l, i, k)], k),
        forall|j: int| i <= j < run_end(l, i, k) ==> in_class(#[trigger] l[j], k),
    decreases l.len() - i,
{
    if 0 <= i < l.len() && in_class(l[i], k) {
        lemma_run_end(l, i + 1, k);
    }
}

/// The numeric body of an item literal starting at `p`, if one starts there:
/// a quote (`"` or `'`), digits and the same quote; or `[`, some `=`, `[`,
/// digits, `]`, as many `=`, and `]`.
pub open spec fn item_at(l: Seq<char>, p: int) -> Option<nat> {
    if 0 <= p < l.len() && (l[p] == '"' || l[p] == '\'') {
        let d1 = run_end(l, p + 1, CharClass::Digit);
        if d1 > p + 1 && d1 < l.len() && l[d1] == l[p] {
            Some(digits_value(l.subrange(p + 1, d1)))
        } else {
            None
        }
    } else if 0 <= p < l.len() && l[p] == '[' {
        let e = run_end(l, p + 1, CharClass::Equals);
        let d1 = run_end(l, e + 1, CharClass::Digit);
        let e2 = run_end(l, d1 + 1, CharClass::Equals);
        if e < l.len() && l[e] == '[' && d1 > e + 1 && d1 < l.len() && l[d1] == ']' && e2 - (d1
            + 1) == e - (p + 1) && e2 < l.len() && l[e2] == ']' {
            Some(digits_value(l.subrange(e + 1, d1)))
        } else {
            None
        }
    } else {
        None
    }
}

/// The key and the value of a directive line whose marker `--#` starts at `p`:
/// blanks, the key (a run of non-blank characters), blanks, then the value,
/// which is the rest of the line, if anything is left.
pub open spec fn directive_at(l: Seq<char>, p: int) -> Option<(Seq<char>, Option<Seq<char>>)> {
    if 0 <= p && p + 3 <= l.len() && l[p] == '-' && l[p + 1] == '-' && l[p + 2] == '#' {
        let q = run_end(l, p + 3, CharClass::Blank);
        let r = run_end(l, q, CharClass::NonBlank);
        let v = run_end(l, r, CharClass::Blank);
        if r == q {
            None
        } else if v < l.len() {
            Some((l.subrange(q, r), Some(l.subrange(v, l.len() as int))))
        } else {
            Some((l.subrange(q, r), None))
        }
    } else {
        None
    }
}

/// What the scanner has gathered so far.
pub struct ScanState {
    pub started: bool,
    pub stopped: bool,
    pub name: Seq<char>,
    pub collection: Option<u64>,
    pub updated: Option<Timestamp>,
    pub items: Seq<u64>,
}

pub open spec fn initial_scan() -> ScanState {
    ScanState {
        started: false,
        stopped: false,
        name: Seq::empty(),
        collection: None,
        updated: None,
        items: Seq::empty(),
    }
}

pub open spec fn word_bundle() -> Seq<char> {
    seq!['b', 'u', 'n', 'd', 'l', 'e']
}

pub open spec fn word_name() -> Seq<char> {
    seq!['n', 'a', 'm', 'e']
}

pub open spec fn word_collection() -> Seq<char> {
    seq!['c', 'o', 'l', 'l', 'e', 'c', 't', 'i', 'o', 'n']
}

pub open spec fn word_updated() -> Seq<char> {
    seq!['u', 'p', 'd', 'a', 't', 'e', 'd']
}

/// The effect of one directive with a value, once the bundle marker was seen.
pub open spec fn apply_directive(st: ScanState, key: Seq<char>, val: Seq<char>) -> ScanState {
    if key == word_name() {
        ScanState { name: val, ..st }
    } else if key == word_collection() {
        match u64_of(val) {
            Some(id) => ScanState { collection: Some(id), ..st },
            None => st,
        }
    } else if key == word_updated() {
        match rfc2822_parsed(val) {
            Some(p) => ScanState { updated: Some(Timestamp { secs: p.0, nanos: p.1 }), ..st },
            None => st,
        }
    } else {
        st
    }
}

/// The effect of one line on the scan.
#[verifier::opaque]
pub open spec fn scan_line(st: ScanState, l: Seq<char>) -> ScanState {
    let p = run_end(l, 0, CharClass::Blank);
    if st.stopped {
        st
    } else {
        match item_at(l, p) {
            Some(v) => if v <= u64::MAX {
                ScanState { items: st.items.push(v as u64), ..st }
            } else {
                st
            },
            None => match directive_at(l, p) {
                Some((key, val)) => if key == word_bundle() {
                    if st.started {
                        ScanState { stopped: true, ..st }
                    } else {
                        ScanState { started: true, ..st }
                    }
                } else if !st.started {
                    st
                } else {
                    match val {
                        Some(v) => apply_directive(st, key, v),
                        None => st,
                    }
                },
                None => st,
            },
        }
    }
}

/// The scan of the lines of `t` from the one that starts at `i` on.
pub open spec fn scan_from(t: Seq<char>, i: int, st: ScanState) -> ScanState
    decreases t.len() - i,
{
    if i < 0 || i > t.len() {
        st
    } else {
        let e = run_end(t, i, CharClass::NotNewline);
        proof {
            lemma_run_end(t, i, CharClass::NotNewline);
        }
        let st2 = scan_line(st, t.subrange(i, e));
        if e >= t.len() {
            st2
        } else {
            scan_from(t, e + 1, st2)
        }
    }
}

/// The scan of a whole text, line by line.
pub open spec fn scan_text(t: Seq<char>) -> ScanState {
    scan_from(t, 0, initial_scan())
}

fn in_class_exec(c: char, k: CharClass) -> (r: bool)
    ensures
        r == in_class(c, k),
{
    match k {
        CharClass::Blank => c == ' ' || c == '\t',
        CharClass::Digit => c >= '0' && c <= '9',
        CharClass::Equals => c == '=',
        CharClass::NonBlank => !(c == ' ' || c == '\t'),
        CharClass::NotNewline => c != '\n',
    }
}

fn run_end_exec(l: &Vec<char>, i: usize, k: CharClass) -> (r: usize)
    requires
        i <= l@.len(),
    ensures
        r as int == run_end(l@, i as int, k),
        i <= r <= l@.len(),
{
    proof {
        lemma_run_end(l@, i as int, k);
    }
    let mut j: usize = i;
    while j < l.len() && in_class_exec(l[j], k)
        invariant
            i <= j <= l@.len(),
            run_end(l@, j as int, k) == run_end(l@, i as int, k),
        decreases l@.len() - j,
    {
        j = j + 1;
    }
    j
}

fn segment_eq(l: &Vec<char>, q: usize, r: usize, w: &Vec<char>) -> (b: bool)
    requires
        q <= r <= l@.len(),
    ensures
        b == (l@.subrange(q as int, r as int) == w@),
{
    if r - q != w.len() {
        return false;
    }
    let mut i: usize = 0;
    while i < w.len()
        invariant
            q <= r <= l@.len(),
            r - q == w@.len(),
            i <= w@.len(),
            forall|j: int| 0 <= j < i ==> l@[q + j] == w@[j],
        decreases w@.len() - i,
    {
        if l[q + i] != w[i] {
            assert(l@.subrange(q as int, r as int)[i as int] != w@[i as int]);
            return false;
        }
        i = i + 1;
    }
    assert(l@.subrange(q as int, r as int) =~= w@);
    true
}

/// Reads an item literal at `p`: `None` where none starts there, `Some(None)`
/// where its digits do not fit in 64 bits.
fn item_at_exec(l: &Vec<char>, p: usize) -> (r: Option<Option<u64>>)
    requires
        p <= l@.len(),
    ensures
        match item_at(l@, p as int) {
            None => r is None,
            Some(v) => r == Some(if v <= u64::MAX { Some(v as u64) } else { None::<u64> }),
        },
{
    let len = l.len();
    if p < len && (l[p] == '"' || l[p] == '\'') {
        let d1 = run_end_exec(l, p + 1, CharClass::Digit);
        if d1 > p + 1 && d1 < len && l[d1] == l[p] {
            proof {
                lemma_run_end(l@, p + 1, CharClass::Digit);
                lemma_digits_u64(l@, p + 1, d1 as int);
            }
            return Some(parse_u64(l, p + 1, d1));
        }
        None
    } else if p < len && l[p] == '[' {
        let e = run_end_exec(l, p + 1, CharClass::Equals);
        if e < len && l[e] == '[' {
            let d1 = run_end_exec(l, e + 1, CharClass::Digit);
            if d1 > e + 1 && d1 < len && l[d1] == ']' {
                let e2 = run_end_exec(l, d1 + 1, CharClass::Equals);
                if e2 - (d1 + 1) == e - (p + 1) && e2 < len && l[e2] == ']' {
                    proof {
                        lemma_run_end(l@, e + 1, CharClass::Digit);
                        lemma_digits_u64(l@, e + 1, d1 as int);
                    }
                    return Some(parse_u64(l, e + 1, d1));
                }
            }
        }
        None
    } else {
        None
    }
}

proof fn lemma_digits_u64(l: Seq<char>, a: int, b: int)
    requires
        0 <= a < b <= l.len(),
        forall|j: int| a <= j < b ==> in_class(#[trigger] l[j], CharClass::Digit),
    ensures
        u64_of(l.subrange(a, b)) == (if digits_value(l.subrange(a, b)) <= u64::MAX {
            Some(digits_value(l.subrange(a, b)) as u64)
        } else {
            None::<u64>
        }),
{
    let s = l.subrange(a, b);
    assert(in_class(l[a], CharClass::Digit));
    assert(s[0] == l[a]);
    assert(crate::text::unsigned_body(s) == s);
    assert forall|i: int| 0 <= i < s.len() implies is_digit(#[trigger] s[i]) by {
        assert(s[i] == l[a + i]);
        assert(in_class(l[a + i], CharClass::Digit));
    }
}

/// The positions of a directive's key (`q..r`) and value (`v..`) where the
/// line holds a directive at `p`.
fn directive_at_exec(l: &Vec<char>, p: usize) -> (r: Option<(usize, usize, usize)>)
    requires
        p <= l@.len(),
    ensures
        match directive_at(l@, p as int) {
            None => r is None,
            Some((key, val)) => r is Some && {
                let (q, e, v) = r->0;
                &&& q <= e <= v <= l@.len()
                &&& key == l@.subrange(q as int, e as int)
                &&& val == (if v < l@.len() {
                    Some(l@.subrange(v as int, l@.len() as int))
                } else {
                    None
                })
            },
        },
{
    let len = l.len();
    if 3 <= len - p && l[p] == '-' && l[p + 1] == '-' && l[p + 2] == '#' {
        let q = run_end_exec(l, p + 3, CharClass::Blank);
        let e = run_end_exec(l, q, CharClass::NonBlank);
        let v = run_end_exec(l, e, CharClass::Blank);
        if e == q {
            None
        } else {
            Some((q, e, v))
        }
    } else {
        None
    }
}

/// The scanner's state while it walks a text.
pub struct Scanner {
    pub started: bool,
    pub stopped: bool,
    pub name: String,
    pub collection: Option<u64>,
    pub updated: Option<Timestamp>,
    pub items: Vec<u64>,
}

impl View for Scanner {
    type V = ScanState;

    open spec fn view(&self) -> ScanState {
        ScanState {
            started: self.started,
            stopped: self.stopped,
            name: self.name@,
            collection: self.collection,
            updated: self.updated,
            items: self.items@,
        }
    }
}

impl Scanner {
    pub fn new() -> (r: Scanner)
        ensures
            r@ == initial_scan(),
    {
        Scanner {
            started: false,
            stopped: false,
            name: String::new(),
            collection: None,
            updated: None,
            items: Vec::new(),
        }
    }

    fn apply_directive(&mut self, l: &Vec<char>, q: usize, e: usize, v: usize)
        requires
            q <= e <= v < l@.len(),
        ensures
            final(self)@ == apply_directive(
                old(self)@,
                l@.subrange(q as int, e as int),
                l@.subrange(v as int, l@.len() as int),
            ),
    {
        let len = l.len();
        let ghost key = l@.subrange(q as int, e as int);
        let ghost val = l@.subrange(v as int, len as int);
        if segment_eq(l, q, e, &vec!['n', 'a', 'm', 'e']) {
            assert(key == word_name());
            let mut name = String::new();
            push_chars(&mut name, l, v, len);
            assert(name@ =~= val);
            self.name = name;
        } else if segment_eq(l, q, e, &vec!['c', 'o', 'l', 'l', 'e', 'c', 't', 'i', 'o', 'n']) {
            assert(key == word_collection());
            assert(key != word_name());
            if let Some(id) = parse_u64(l, v, len) {
                self.collection = Some(id);
            }
        } else if segment_eq(l, q, e, &vec!['u', 'p', 'd', 'a', 't', 'e', 'd']) {
            assert(key == word_updated());
            assert(key != word_name());
            assert(key != word_collection());
            let mut text = String::new();
            push_chars(&mut text, l, v, len);
            assert(text@ =~= val);
            if let Some(t) = parse_rfc2822(text.as_str()) {
                self.updated = Some(t);
            }
        } else {
            assert(key != word_name());
            assert(key != word_collection());
            assert(key != word_updated());
        }
    }

    /// Takes one line (without its newline) into the scan.
    pub fn scan_line(&mut self, l: &Vec<char>)
        ensures
            final(self)@ == scan_line(old(self)@, l@),
    {
        proof {
            reveal(scan_line);
        }
        if self.stopped {
            return;
        }
        let p = run_end_exec(l, 0, CharClass::Blank);
        match item_at_exec(l, p) {
            Some(Some(v)) => {
                self.items.push(v);
            },
            Some(None) => {},
            None => {
                match directive_at_exec(l, p) {
                    Some((q, e, v)) => {
                        if segment_eq(l, q, e, &vec!['b', 'u', 'n', 'd', 'l', 'e']) {
                            if self.started {
                                self.stopped = true;
                            } else {
                                self.started = true;
                            }
                        } else if self.started && v < l.len() {
                            self.apply_directive(l, q, e, v);
                        }
                    },
                    None => {},
                }
            },
        }
    }
}

/// Scans a whole text, line by line.
pub fn scan(src: &str) -> (r: Scanner)
    ensures
        r@ == scan_text(src@),
{
    let t = crate::text::chars_of(src);
    let mut sc = Scanner::new();
    let mut i: usize = 0;
    loop
        invariant
            i <= t@.len(),
            t@ == src@,
            scan_from(t@, i as int, sc@) == scan_text(src@),
        decreases t@.len() - i,
    {
        let e = run_end_exec(&t, i, CharClass::NotNewline);
        let mut line: Vec<char> = Vec::new();
        let mut j: usize = i;
        while j < e
            invariant
                i <= j <= e <= t@.len(),
                line@ == t@.subrange(i as int, j as int),
            decreases e - j,
        {
            line.push(t[j]);
            assert(t@.subrange(i as int, j + 1) =~= t@.subrange(i as int, j as int).push(t@[j as int]));
            j = j + 1;
        }
        sc.scan_line(&line);
        if e >= t.len() {
            return sc;
        }
        i = e + 1;
    }
}

proof fn lemma_run_end_shift(pre: Seq<char>, tail: Seq<char>, i: int, k: CharClass)
    requires
        0 <= i,
    ensures
        run_end(pre + tail, pre.len() + i, k) == pre.len() + run_end(tail, i, k),
    decreases tail.len() - i,
{
    if i < tail.len() {
        assert((pre + tail)[pre.len() + i] == tail[i]);
        lemma_run_end_shift(pre, tail, i + 1, k);
    }
}

proof fn lemma_run_end_prefix(pre: Seq<char>, tail: Seq<char>, i: int, k: CharClass)
    requires
        0 <= i,
        run_end(pre, i, k) < pre.len(),
    ensures
        run_end(pre + tail, i, k) == run_end(pre, i, k),
    decreases pre.len() - i,
{
    assert((pre + tail)[i] == pre[i]);
    if in_class(pre[i], k) {
        lemma_run_end_prefix(pre, tail, i + 1, k);
    }
}

proof fn lemma_scan_shift(pre: Seq<char>, tail: Seq<char>, i: int, st: ScanState)
    requires
        0 <= i <= tail.len(),
    ensures
        scan_from(pre + tail, pre.len() + i, st) == scan_from(tail, i, st),
    decreases tail.len() - i,
{
    let t = pre + tail;
    let e = run_end(tail, i, CharClass::NotNewline);
    lemma_run_end(tail, i, CharClass::NotNewline);
    lemma_run_end_shift(pre, tail, i, CharClass::NotNewline);
    assert(t.subrange(pre.len() + i, pre.len() + e) =~= tail.subrange(i, e));
    if e < tail.len() {
        lemma_scan_shift(pre, tail, e + 1, st2_of(tail, i, st));
    }
}

spec fn st2_of(t: Seq<char>, i: int, st: ScanState) -> ScanState {
    scan_line(st, t.subrange(i, run_end(t, i, CharClass::NotNewline)))
}

pub proof fn lemma_scan_empty_line(st: ScanState)
    ensures
        scan_line(st, Seq::empty()) == st,
{
    reveal(scan_line);
}

/// Scanning a text whose first part ends a line is scanning the first part,
/// then the rest.
pub proof fn lemma_scan_split(pre: Seq<char>, tail: Seq<char>, st: ScanState)
    requires
        pre.len() > 0,
        pre.last() == '\n',
    ensures
        scan_from(pre + tail, 0, st) == scan_from(tail, 0, scan_from(pre, 0, st)),
{
    lemma_scan_split_from(pre, tail, 0, st);
}

proof fn lemma_scan_split_from(pre: Seq<char>, tail: Seq<char>, i: int, st: ScanState)
    requires
        pre.len() > 0,
        pre.last() == '\n',
        0 <= i <= pre.len(),
    ensures
        scan_from(pre + tail, i, st) == scan_from(tail, 0, scan_from(pre, i, st)),
    decreases pre.len() - i,
{
    let t = pre + tail;
    if i == pre.len() {
        lemma_scan_shift(pre, tail, 0, st);
        assert(pre.subrange(i, i) =~= Seq::<char>::empty());
        lemma_scan_empty_line(st);
    } else {
        let e = run_end(pre, i, CharClass::NotNewline);
        lemma_run_end(pre, i, CharClass::NotNewline);
        assert(e < pre.len()) by {
            if e >= pre.len() {
                assert(in_class(pre[pre.len() - 1], CharClass::NotNewline));
            }
        }
        lemma_run_end_prefix(pre, tail, i, CharClass::NotNewline);
        assert(t.subrange(i, e) =~= pre.subrange(i, e));
        lemma_scan_split_from(pre, tail, e + 1, scan_line(st, pre.subrange(i, e)));
    }
}

/// Once the scan has stopped, the rest of the text changes nothing.
pub proof fn lemma_scan_stopped(t: Seq<char>, i: int, st: ScanState)
    requires
        st.stopped,
    ensures
        scan_from(t, i, st) == st,
    decreases t.len() - i,
{
    reveal(scan_line);
    if 0 <= i <= t.len() {
        lemma_run_end(t, i, CharClass::NotNewline);
        let e = run_end(t, i, CharClass::NotNewline);
        if e < t.len() {
            lemma_scan_stopped(t, e + 1, st);
        }
    }
}

/// The scan of a line followed by a newline and more text.
pub proof fn lemma_scan_line_then(l: Seq<char>, tail: Seq<char>, st: ScanState)
    requires
        forall|j: int| 0 <= j < l.len() ==> l[j] != '\n',
    ensures
        scan_from(l + seq!['\n'] + tail, 0, st) == scan_from(tail, 0, scan_line(st, l)),
{
    let pre = l + seq!['\n'];
    assert(l + seq!['\n'] + tail == pre + tail);
    lemma_scan_split(pre, tail, st);
    lemma_run_end(pre, 0, CharClass::NotNewline);
    let e = run_end(pre, 0, CharClass::NotNewline);
    assert(e == l.len()) by {
        if e < l.len() {
            assert(pre[e] == l[e]);
        }
        if e > l.len() {
            assert(pre[l.len() as int] == '\n');
            assert(in_class(pre[l.len() as int], CharClass::NotNewline));
        }
    }
    assert(pre.subrange(0, e) =~= l);
    let s2 = scan_line(st, l);
    assert(pre.subrange(e + 1, e + 1) =~= Seq::<char>::empty());
    lemma_scan_empty_line(s2);
    assert(run_end(pre, e + 1, CharClass::NotNewline) == e + 1);
    assert(scan_from(pre, e + 1, s2) == s2);
    assert(scan_from(pre, 0, st) == s2);
}

/// A `--# bundle` line.
pub open spec fn bundle_marker_line() -> Seq<char> {
    seq!['-', '-', '#', ' ', 'b', 'u', 'n', 'd', 'l', 'e']
}

/// The scanner reads the marker line as the bundle marker: the first opens
/// the block, a second ends the scan.
pub proof fn lemma_marker_line(st: ScanState)
    ensures
        scan_line(st, bundle_marker_line()) == (if st.stopped {
            st
        } else if st.started {
            ScanState { stopped: true, ..st }
        } else {
            ScanState { started: true, ..st }
        }),
        one_line(bundle_marker_line()),
{
    reveal(scan_line);
    let l = bundle_marker_line();
    lemma_run_end(l, 0, CharClass::Blank);
    lemma_run_end(l, 3, CharClass::Blank);
    lemma_run_end(l, 4, CharClass::NonBlank);
    lemma_run_end(l, 10, CharClass::Blank);
    assert(run_end(l, 0, CharClass::Blank) == 0);
    assert(run_end(l, 3, CharClass::Blank) == 4) by {
        assert(in_class(l[3], CharClass::Blank));
        lemma_run_end(l, 4, CharClass::Blank);
        assert(run_end(l, 4, CharClass::Blank) == 4);
    }
    assert(run_end(l, 4, CharClass::NonBlank) == 10) by {
        let r = run_end(l, 4, CharClass::NonBlank);
        if r < 10 {
            assert(!in_class(l[r], CharClass::NonBlank));
        }
    }
    assert(l.subrange(4, 10) =~= word_bundle());
    assert(item_at(l, 0) is None);
}

/// Whether the scanner reads the line as a bundle marker: after any blanks,
/// `--#`, any blanks, then the key `bundle`, whatever follows it.
pub open spec fn is_marker_line(l: Seq<char>) -> bool {
    let p = run_end(l, 0, CharClass::Blank);
    &&& item_at(l, p) is None
    &&& directive_at(l, p) matches Some((k, _)) && k == word_bundle()
}

/// A marker line, in whatever spelling, ends the scan once a block is open.
pub proof fn lemma_marker_scan(st: ScanState, l: Seq<char>)
    requires
        is_marker_line(l),
        st.started,
        !st.stopped,
    ensures
        scan_line(st, l) == (ScanState { stopped: true, ..st }),
{
    reveal(scan_line);
}

/// Only the first bundle marker opens a block: a second marker line, in any
/// spelling the scanner reads as one, ends the scan, so whatever follows it
/// (or nothing, where it is the last line) counts for nothing.
pub proof fn lemma_second_marker_ends_scan(pre: Seq<char>, marker: Seq<char>, rest: Seq<char>)
    requires
        pre.len() > 0,
        pre.last() == '\n',
        scan_text(pre).started,
        !scan_text(pre).stopped,
        one_line(marker),
        is_marker_line(marker),
    ensures
        scan_text(pre + marker + seq!['\n'] + rest) == (ScanState { stopped: true, ..scan_text(pre) }),
        scan_text(pre + marker) == (ScanState { stopped: true, ..scan_text(pre) }),
{
    let st = scan_text(pre);
    let next = ScanState { stopped: true, ..st };
    assert(pre + marker + seq!['\n'] + rest == pre + (marker + seq!['\n'] + rest));
    lemma_scan_split(pre, marker + seq!['\n'] + rest, initial_scan());
    lemma_scan_line_then(marker, rest, st);
    lemma_marker_scan(st, marker);
    lemma_scan_stopped(rest, 0, next);
    lemma_scan_split(pre, marker, initial_scan());
    lemma_scan_last_line(marker, st);
}

/// Whether the text holds no newline.
pub open spec fn one_line(s: Seq<char>) -> bool {
    forall|j: int| 0 <= j < s.len() ==> s[j] != '\n'
}

/// A line that is neither an item literal nor a directive leaves the scan as it was.
pub proof fn lemma_plain_line(l: Seq<char>, st: ScanState)
    requires
        l.len() > 0,
        !in_class(l[0], CharClass::Blank),
        l[0] != '"' && l[0] != '\'' && l[0] != '[',
        !(l.len() >= 3 && l[0] == '-' && l[1] == '-' && l[2] == '#'),
    ensures
        scan_line(st, l) == st,
{
    reveal(scan_line);
    assert(run_end(l, 0, CharClass::Blank) == 0);
}

/// The scan of a text's last line, which no newline ends.
pub proof fn lemma_scan_last_line(l: Seq<char>, st: ScanState)
    requires
        one_line(l),
    ensures
        scan_from(l, 0, st) == scan_line(st, l),
{
    lemma_run_end(l, 0, CharClass::NotNewline);
    let e = run_end(l, 0, CharClass::NotNewline);
    assert(e == l.len()) by {
        if e < l.len() {
            assert(!in_class(l[e], CharClass::NotNewline));
        }
    }
    assert(l.subrange(0, e) =~= l);
}

/// The marker, key and value of a directive line `--# key value`.
pub open spec fn directive_line(key: Seq<char>, val: Seq<char>) -> Seq<char> {
    seq!['-', '-', '#', ' '] + key + seq![' '] + val
}

/// How the scanner reads a directive line: its key, and its value where the
/// value is not empty and starts with no blank.
pub proof fn lemma_directive_line(key: Seq<char>, val: Seq<char>)
    requires
        key.len() > 0,
        forall|j: int| 0 <= j < key.len() ==> in_class(#[trigger] key[j], CharClass::NonBlank),
    ensures
        run_end(directive_line(key, val), 0, CharClass::Blank) == 0,
        item_at(directive_line(key, val), 0) is None,
        directive_at(directive_line(key, val), 0) matches Some((k, v)) && k == key && (val.len()
            > 0 && !in_class(val[0], CharClass::Blank) ==> v == Some(val)) && (val.len() == 0
            ==> v is None),
{
    let l = directive_line(key, val);
    let n = key.len() as int;
    assert(l[0] == '-' && l[1] == '-' && l[2] == '#' && l[3] == ' ');
    assert(run_end(l, 0, CharClass::Blank) == 0);
    lemma_run_end(l, 4, CharClass::Blank);
    assert(l[4] == key[0]);
    assert(run_end(l, 4, CharClass::Blank) == 4);
    assert(run_end(l, 3, CharClass::Blank) == 4);
    lemma_run_end(l, 4, CharClass::NonBlank);
    let r = run_end(l, 4, CharClass::NonBlank);
    assert(l[4 + n] == ' ');
    assert(r == 4 + n) by {
        if r < 4 + n {
            assert(l[r] == key[r - 4]);
        }
        if r > 4 + n {
            assert(in_class(l[4 + n], CharClass::NonBlank));
        }
    }
    assert(l.subrange(4, 4 + n) =~= key);
    lemma_run_end(l, 4 + n, CharClass::Blank);
    lemma_run_end(l, 5 + n, CharClass::Blank);
    let v = run_end(l, 4 + n, CharClass::Blank);
    if val.len() > 0 && !in_class(val[0], CharClass::Blank) {
        assert(l[5 + n] == val[0]);
        assert(run_end(l, 5 + n, CharClass::Blank) == 5 + n);
        assert(v == 5 + n);
        assert(l.subrange(5 + n, l.len() as int) =~= val);
    }
    if val.len() == 0 {
        assert(v == l.len());
    }
}

/// The scanner reads a directive line, inside an open block, by its key and value.
pub proof fn lemma_directive_scan(st: ScanState, key: Seq<char>, val: Seq<char>)
    requires
        st.started,
        !st.stopped,
        key.len() > 0,
        key != word_bundle(),
        forall|j: int| 0 <= j < key.len() ==> in_class(#[trigger] key[j], CharClass::NonBlank),
    ensures
        val.len() > 0 && !in_class(val[0], CharClass::Blank) ==> scan_line(st, directive_line(key, val))
            == apply_directive(st, key, val),
        val.len() == 0 ==> scan_line(st, directive_line(key, val)) == st,
        directive_at(directive_line(key, val), 0) matches Some((k, v)) && k == key && scan_line(
            st,
            directive_line(key, val),
        ) == match v {
            Some(x) => apply_directive(st, key, x),
            None => st,
        },
{
    reveal(scan_line);
    lemma_directive_line(key, val);
}

/// A time directive changes the time alone.
pub proof fn lemma_apply_updated(st: ScanState, val: Seq<char>)
    ensures
        ({
            let r = apply_directive(st, word_updated(), val);
            r.started == st.started && r.stopped == st.stopped && r.name == st.name && r.collection
                == st.collection && r.items == st.items
        }),
{
    assert(word_updated().len() != word_name().len());
    assert(word_updated().len() != word_collection().len());
}

proof fn lemma_directive_one_line(key: Seq<char>, val: Seq<char>)
    requires
        one_line(key),
        one_line(val),
    ensures
        one_line(directive_line(key, val)),
{
    let l = directive_line(key, val);
    assert forall|j: int| 0 <= j < l.len() implies l[j] != '\n' by {
        if 4 <= j < 4 + key.len() {
            assert(l[j] == key[j - 4]);
        } else if j >= 5 + key.len() {
            assert(l[j] == val[j - 5 - key.len()]);
        }
    }
}

/// A `--# name` line, inside an open block, sets the name (an empty value
/// leaves it as it was).
pub proof fn lemma_name_line(st: ScanState, val: Seq<char>)
    requires
        st.started,
        !st.stopped,
        one_line(val),
        val.len() == 0 || !in_class(val[0], CharClass::Blank),
    ensures
        one_line(directive_line(word_name(), val)),
        scan_line(st, directive_line(word_name(), val)) == if val.len() == 0 {
            st
        } else {
            ScanState { name: val, ..st }
        },
{
    lemma_key_words();
    lemma_directive_scan(st, word_name(), val);
    lemma_directive_one_line(word_name(), val);
}

/// A `--# collection` line with a decimal value, inside an open block, sets the collection.
pub proof fn lemma_collection_line(st: ScanState, id: u64)
    requires
        st.started,
        !st.stopped,
    ensures
        one_line(directive_line(word_collection(), decimal_of(id as nat))),
        scan_line(st, directive_line(word_collection(), decimal_of(id as nat))) == (ScanState {
            collection: Some(id),
            ..st
        }),
{
    let d = decimal_of(id as nat);
    lemma_key_words();
    lemma_directive_scan(st, word_collection(), d);
    lemma_decimal_digits(id as nat);
    crate::text::lemma_decimal_round_trip(id);
    assert(is_digit(d[0]));
    assert(one_line(d)) by {
        assert forall|j: int| 0 <= j < d.len() implies d[j] != '\n' by {
            assert(is_digit(d[j]));
        }
    }
    lemma_directive_one_line(word_collection(), d);
}

/// A `--# updated` line, inside an open block, changes the time alone.
pub proof fn lemma_updated_line(st: ScanState, val: Seq<char>)
    requires
        st.started,
        !st.stopped,
        one_line(val),
    ensures
        one_line(directive_line(word_updated(), val)),
        ({
            let r = scan_line(st, directive_line(word_updated(), val));
            r.started && !r.stopped && r.name == st.name && r.collection == st.collection && r.items
                == st.items
        }),
{
    lemma_key_words();
    lemma_directive_scan(st, word_updated(), val);
    let d = directive_at(directive_line(word_updated(), val), 0)->0;
    let v = d.1;
    if v is Some {
        lemma_apply_updated(st, v->0);
    }
    lemma_directive_one_line(word_updated(), val);
}

proof fn lemma_key_words()
    ensures
        forall|j: int| 0 <= j < word_name().len() ==> in_class(#[trigger] word_name()[j], CharClass::NonBlank),
        forall|j: int|
            0 <= j < word_collection().len() ==> in_class(#[trigger] word_collection()[j], CharClass::NonBlank),
        forall|j: int|
            0 <= j < word_updated().len() ==> in_class(#[trigger] word_updated()[j], CharClass::NonBlank),
        one_line(word_name()),
        one_line(word_collection()),
        one_line(word_updated()),
        word_name() != word_bundle(),
        word_collection() != word_bundle(),
        word_updated() != word_bundle(),
{
    assert(word_name().len() != word_bundle().len());
    assert(word_collection().len() != word_bundle().len());
    assert(word_updated().len() != word_bundle().len());
}

/// The line of one exported item: its id in quotes, then anything.
pub open spec fn quoted_line(x: u64, rest: Seq<char>) -> Seq<char> {
    seq!['"'] + decimal_of(x as nat) + seq!['"'] + rest
}

/// The scanner reads an exported item line as that item.
pub proof fn lemma_quoted_line(x: u64, rest: Seq<char>, st: ScanState)
    requires
        !st.stopped,
    ensures
        scan_line(st, quoted_line(x, rest)) == (ScanState { items: st.items.push(x), ..st }),
{
    reveal(scan_line);
    let l = quoted_line(x, rest);
    let d = decimal_of(x as nat);
    let m = d.len() as int;
    lemma_decimal_digits(x as nat);
    assert(run_end(l, 0, CharClass::Blank) == 0);
    lemma_run_end(l, 1, CharClass::Digit);
    let d1 = run_end(l, 1, CharClass::Digit);
    assert(l[1 + m] == '"');
    assert(d1 == 1 + m) by {
        if d1 < 1 + m {
            assert(l[d1] == d[d1 - 1]);
            assert(is_digit(d[d1 - 1]));
        }
        if d1 > 1 + m {
            assert(in_class(l[1 + m], CharClass::Digit));
        }
    }
    assert(l.subrange(1, d1) =~= d);
    assert(item_at(l, 0) == Some(x as nat));
}

} // verus!
