//! The reader for tree-construction test files.
//!
//! A test file is line-oriented: a block holds a `#data` section, an
//! `#errors` section and a `#document` section, and an empty line ends the
//! block.  Other known headers are recognized but unsupported, and reading
//! them is an explicit error.  The `#document` section carries the expected
//! tree in the renderer's format, and `assert_eq` decides — exactly —
//! whether a built tree renders to those lines.

use vstd::prelude::*;
use vstd::string::StrSliceExecFns;

use crate::tokenizer::{push_char, str_eq, str_to_chars};
use crate::tree::{Tree, dfs};
use crate::tree_builder::{Node, indentation, render_lines_m, strs_m};

verus! {

/// One parsed block of a test file: the input lines, the expected parse
/// errors, and the expected rendered tree.
#[derive(Debug, PartialEq)]
pub struct TestCase {
    pub data: Vec<String>,
    pub error: Vec<String>,
    pub document: Vec<String>,
}

/// Model of a test case.
#[verifier::ext_equal]
pub struct TestCaseM {
    pub data: Seq<Seq<char>>,
    pub error: Seq<Seq<char>>,
    pub document: Seq<Seq<char>>,
}

impl View for TestCase {
    type V = TestCaseM;

    open spec fn view(&self) -> TestCaseM {
        TestCaseM {
            data: strs_m(self.data@),
            error: strs_m(self.error@),
            document: strs_m(self.document@),
        }
    }
}

/// The empty test case.
pub open spec fn empty_case() -> TestCaseM {
    TestCaseM {
        data: Seq::<Seq<char>>::empty(),
        error: Seq::<Seq<char>>::empty(),
        document: Seq::<Seq<char>>::empty(),
    }
}

impl TestCase {
    pub fn new() -> (t: Self)
        ensures
            t@ == empty_case(),
    {
        let t = TestCase { data: Vec::new(), error: Vec::new(), document: Vec::new() };
        proof {
            assert(t@ =~~= empty_case());
        }
        t
    }
}

/// Which section of a block the reader is filling.
#[derive(Debug, Clone, Copy, PartialEq, Eq)]
pub enum TestState {
    Data,
    Error,
    Document,
}

/// A section header the reader recognizes but does not support.
#[derive(Debug, PartialEq)]
pub enum TestFileError {
    UnsupportedHeader(String),
}

/// Model of a reader error.
#[verifier::ext_equal]
pub enum TestFileErrM {
    UnsupportedHeader(Seq<char>),
}

impl View for TestFileError {
    type V = TestFileErrM;

    open spec fn view(&self) -> TestFileErrM {
        match self {
            TestFileError::UnsupportedHeader(s) => TestFileErrM::UnsupportedHeader(s@),
        }
    }
}

// ---------------------------------------------------------------------
// Splitting a text into lines.
// ---------------------------------------------------------------------

/// The position of the first line feed in `s`, or its length when none.
pub open spec fn first_nl(s: Seq<char>) -> int
    decreases s.len(),
{
    if s.len() == 0 {
        0
    } else if s[0] == '\u{000A}' {
        0
    } else {
        1 + first_nl(s.drop_first())
    }
}

/// A line with any trailing carriage return removed, as a buffered line
/// reader removes it.
pub open spec fn trim_cr(l: Seq<char>) -> Seq<char> {
    if l.len() > 0 && l.last() == '\u{000D}' {
        l.drop_last()
    } else {
        l
    }
}

pub proof fn lemma_first_nl_bounds(s: Seq<char>)
    ensures
        0 <= first_nl(s) <= s.len(),
        first_nl(s) < s.len() ==> s[first_nl(s)] == '\u{000A}',
        forall|i: int| 0 <= i < first_nl(s) ==> s[i] != '\u{000A}',
    decreases s.len(),
{
    if s.len() != 0 && s[0] != '\u{000A}' {
        lemma_first_nl_bounds(s.drop_first());
        assert forall|i: int| 0 <= i < first_nl(s) implies s[i] != '\u{000A}' by {
            if i > 0 {
                assert(s.drop_first()[i - 1] == s[i]);
            }
        }
    }
}

/// The first line feed is exactly where a scan finds it.
pub proof fn lemma_first_nl_is(s: Seq<char>, k: int)
    requires
        0 <= k <= s.len(),
        forall|i: int| 0 <= i < k ==> s[i] != '\u{000A}',
        k < s.len() ==> s[k] == '\u{000A}',
    ensures
        first_nl(s) == k,
    decreases s.len(),
{
    if s.len() != 0 && s[0] != '\u{000A}' {
        lemma_first_nl_is(s.drop_first(), k - 1);
    }
}

/// The lines of a text: one line per line feed, a trailing carriage
/// return trimmed from each line, and no empty final line for a text that
/// ends in a line feed.
pub open spec fn split_lines_m(s: Seq<char>) -> Seq<Seq<char>>
    decreases s.len(),
    via split_lines_m_decreases
{
    if s.len() == 0 {
        Seq::<Seq<char>>::empty()
    } else {
        let k = first_nl(s);
        if k >= s.len() {
            seq![trim_cr(s)]
        } else {
            seq![trim_cr(s.subrange(0, k))] + split_lines_m(s.subrange(k + 1, s.len() as int))
        }
    }
}

#[via_fn]
proof fn split_lines_m_decreases(s: Seq<char>) {
    lemma_first_nl_bounds(s);
}

/// The characters of `v` from `from` (inclusive) to `to` (exclusive), as
/// a string.
fn chars_to_string_range(v: &Vec<char>, from: usize, to: usize) -> (s: String)
    requires
        from <= to <= v@.len(),
    ensures
        s@ == v@.subrange(from as int, to as int),
{
    let mut s = String::new();
    let mut i: usize = from;
    while i < to
        invariant
            from <= i <= to <= v@.len(),
            s@ =~= v@.subrange(from as int, i as int),
        decreases to - i,
    {
        push_char(&mut s, v[i]);
        proof {
            assert(v@.subrange(from as int, i as int).push(v@[i as int]) =~= v@.subrange(
                from as int,
                (i + 1) as int,
            ));
        }
        i = i + 1;
    }
    s
}

/// The reader: the lines of the test text, in order.
pub struct TestReader {
    pub lines: Vec<String>,
}

impl TestReader {
    /// A reader over an in-memory test text, split into lines as a
    /// buffered line reader splits them.
    pub fn new_from_string(content: String) -> (r: TestReader)
        ensures
            strs_m(r.lines@) == split_lines_m(content@),
    {
        let chars = str_to_chars(content.as_str());
        let n = chars.len();
        let mut lines: Vec<String> = Vec::new();
        let mut pos: usize = 0;
        proof {
            assert(content@.subrange(0, n as int) =~= content@);
            assert(strs_m(lines@) + split_lines_m(content@) =~= split_lines_m(content@));
        }
        while pos < n
            invariant
                pos <= n,
                n == chars@.len(),
                chars@ == content@,
                split_lines_m(content@) =~= strs_m(lines@) + split_lines_m(
                    content@.subrange(pos as int, n as int),
                ),
            decreases n - pos,
        {
            let mut j: usize = pos;
            while j < n && chars[j] != '\u{000A}'
                invariant
                    pos <= j <= n,
                    n == chars@.len(),
                    forall|i: int| pos <= i < j ==> chars@[i] != '\u{000A}',
                decreases n - j,
            {
                j = j + 1;
            }
            let ghost suffix = content@.subrange(pos as int, n as int);
            proof {
                assert forall|i: int| 0 <= i < j - pos implies suffix[i] != '\u{000A}' by {
                    assert(suffix[i] == content@[pos + i]);
                }
                if (j as int) < n as int {
                    assert(suffix[j - pos] == content@[j as int]);
                }
                lemma_first_nl_is(suffix, j - pos);
            }
            let end = if j > pos && chars[j - 1] == '\u{000D}' {
                j - 1
            } else {
                j
            };
            let line = chars_to_string_range(&chars, pos, end);
            let ghost lines_before = lines@;
            lines.push(line);
            proof {
                if j < n {
                    assert(suffix.subrange(0, j - pos) =~= content@.subrange(pos as int, j as int));
                    assert(trim_cr(suffix.subrange(0, j - pos)) =~= content@.subrange(
                        pos as int,
                        end as int,
                    ));
                    assert(suffix.subrange(j - pos + 1, suffix.len() as int) =~= content@.subrange(
                        (j + 1) as int,
                        n as int,
                    ));
                    assert(split_lines_m(suffix) =~= seq![
                        content@.subrange(pos as int, end as int),
                    ] + split_lines_m(content@.subrange((j + 1) as int, n as int)));
                } else {
                    assert(suffix =~= content@.subrange(pos as int, n as int));
                    assert(trim_cr(suffix) =~= content@.subrange(pos as int, end as int));
                    assert(split_lines_m(suffix) =~= seq![
                        content@.subrange(pos as int, end as int),
                    ]);
                    assert(split_lines_m(content@.subrange(n as int, n as int)) =~= Seq::<
                        Seq<char>,
                    >::empty());
                }
                assert(strs_m(lines@) =~= strs_m(lines_before).push(
                    content@.subrange(pos as int, end as int),
                ));
            }
            if j < n {
                pos = j + 1;
            } else {
                pos = n;
            }
            proof {
                assert(split_lines_m(content@) =~= strs_m(lines@) + split_lines_m(
                    content@.subrange(pos as int, n as int),
                ));
            }
        }
        proof {
            assert(split_lines_m(content@.subrange(n as int, n as int)) =~= Seq::<
                Seq<char>,
            >::empty());
            assert(strs_m(lines@) =~= split_lines_m(content@));
        }
        TestReader { lines }
    }

    /// Reads one block: lines fall into the section whose header was seen
    /// last, an empty line ends the block, and an unsupported header is an
    /// explicit error.
    pub fn get(self) -> (r: Result<TestCase, TestFileError>)
        ensures
            match sections_of(strs_m(self.lines@), 0, TestState::Data, empty_case()) {
                Ok(tc) => r matches Ok(t) && t@ == tc,
                Err(e) => r matches Err(e2) && e2@ == e,
            },
    {
        let mut test_case = TestCase::new();
        let mut current_state = TestState::Data;
        let n = self.lines.len();
        let mut i: usize = 0;
        while i < n
            invariant
                i <= n,
                n == self.lines@.len(),
                sections_of(strs_m(self.lines@), i as int, current_state, test_case@)
                    == sections_of(strs_m(self.lines@), 0, TestState::Data, empty_case()),
            decreases n - i,
        {
            proof {
                assert(strs_m(self.lines@)[i as int] == self.lines@[i as int]@);
            }
            let line = &self.lines[i];
            if line.as_str().unicode_len() == 0 {
                return Ok(test_case);
            } else if str_eq(line.as_str(), "#data") {
                current_state = TestState::Data;
            } else if str_eq(line.as_str(), "#errors") {
                current_state = TestState::Error;
            } else if str_eq(line.as_str(), "#document") {
                current_state = TestState::Document;
            } else if str_eq(line.as_str(), "#new-errors") || str_eq(
                line.as_str(),
                "#document-fragment",
            ) || str_eq(line.as_str(), "#script-off") || str_eq(line.as_str(), "#script-on") {
                return Err(TestFileError::UnsupportedHeader(line.clone()));
            } else {
                match current_state {
                    TestState::Data => {
                        let ghost before = test_case@;
                        test_case.data.push(line.clone());
                        proof {
                            assert(test_case@ =~~= (TestCaseM {
                                data: before.data.push(self.lines@[i as int]@),
                                ..before
                            }));
                        }
                    },
                    TestState::Error => {
                        let ghost before = test_case@;
                        test_case.error.push(line.clone());
                        proof {
                            assert(test_case@ =~~= (TestCaseM {
                                error: before.error.push(self.lines@[i as int]@),
                                ..before
                            }));
                        }
                    },
                    TestState::Document => {
                        let ghost before = test_case@;
                        test_case.document.push(line.clone());
                        proof {
                            assert(test_case@ =~~= (TestCaseM {
                                document: before.document.push(self.lines@[i as int]@),
                                ..before
                            }));
                        }
                    },
                }
            }
            i = i + 1;
        }
        Ok(test_case)
    }
}

/// Reading the lines from position `i` on in section `st`, having
/// accumulated `acc`: the test case, or the unsupported header hit.
pub open spec fn sections_of(
    lines: Seq<Seq<char>>,
    i: int,
    st: TestState,
    acc: TestCaseM,
) -> Result<TestCaseM, TestFileErrM>
    decreases lines.len() - i,
    when 0 <= i <= lines.len()
{
    if i >= lines.len() {
        Ok(acc)
    } else {
        let line = lines[i];
        if line.len() == 0 {
            Ok(acc)
        } else if line == "#data"@ {
            sections_of(lines, i + 1, TestState::Data, acc)
        } else if line == "#errors"@ {
            sections_of(lines, i + 1, TestState::Error, acc)
        } else if line == "#document"@ {
            sections_of(lines, i + 1, TestState::Document, acc)
        } else if line == "#new-errors"@ || line == "#document-fragment"@ || line == "#script-off"@
            || line == "#script-on"@ {
            Err(TestFileErrM::UnsupportedHeader(line))
        } else {
            match st {
                TestState::Data => sections_of(
                    lines,
                    i + 1,
                    st,
                    TestCaseM { data: acc.data.push(line), ..acc },
                ),
                TestState::Error => sections_of(
                    lines,
                    i + 1,
                    st,
                    TestCaseM { error: acc.error.push(line), ..acc },
                ),
                TestState::Document => sections_of(
                    lines,
                    i + 1,
                    st,
                    TestCaseM { document: acc.document.push(line), ..acc },
                ),
            }
        }
    }
}

/// The rendered tree without its `#document` line: what the `#document`
/// section of a test block is compared against.
pub open spec fn rendered_doc_lines(t: Tree<Node>) -> Seq<Seq<char>> {
    let all = render_lines_m(t);
    if all.len() == 0 {
        all
    } else {
        all.drop_first()
    }
}

impl TestReader {
    /// Whether the tree renders, line for line, to the block's expected
    /// `#document` section.
    pub fn assert_eq(test_case: &TestCase, tree: &Tree<Node>) -> (r: bool)
        requires
            tree.edges_ok(),
            tree.data@.len() <= usize::MAX / 2,
        ensures
            r == (test_case@.document == rendered_doc_lines(*tree)),
    {
        let ghost all = dfs(*tree);
        let ghost rendered = render_lines_m(*tree);
        let mut it = tree.into_iter();
        match it.next() {
            None => {
                proof {
                    assert(all.len() == 0);
                    assert(rendered.len() == 0);
                }
                if test_case.document.len() == 0 {
                    proof {
                        assert(test_case@.document =~= rendered_doc_lines(*tree));
                    }
                    return true;
                } else {
                    return false;
                }
            },
            Some(_) => {},
        }
        proof {
            assert(it.remaining() =~= all.skip(1));
        }
        let n = test_case.document.len();
        let mut i: usize = 0;
        while i < n
            invariant
                i <= n,
                n == test_case.document@.len(),
                tree.edges_ok(),
                tree.data@.len() <= usize::MAX / 2,
                all == dfs(*tree),
                rendered == render_lines_m(*tree),
                rendered.len() == all.len(),
                all.len() >= i + 1,
                it.wf(),
                it.tree == tree,
                it.remaining() =~= all.skip((i + 1) as int),
                forall|k: int|
                    0 <= k < i ==> #[trigger] test_case@.document[k] == rendered[k + 1],
            decreases n - i,
        {
            match it.next() {
                Some(node) => {
                    proof {
                        assert(all.skip((i + 1) as int)[0] == all[i + 1]);
                        assert(it.remaining() =~= all.skip((i + 2) as int));
                        assert(*node == all[i + 1].1);
                    }
                    let d = it.get_current_depth();
                    let mut line = indentation(d);
                    let shape = node.render();
                    line.append(shape.as_str());
                    proof {
                        assert(line@ == rendered[i + 1]);
                        assert(test_case@.document[i as int] == test_case.document@[i as int]@);
                    }
                    if !str_eq(line.as_str(), test_case.document[i].as_str()) {
                        proof {
                            assert(test_case@.document[i as int] != rendered_doc_lines(*tree)[
                                i as int
                            ]);
                        }
                        return false;
                    }
                    i = i + 1;
                },
                None => {
                    proof {
                        assert(all.skip((i + 1) as int).len() == 0);
                        assert(rendered_doc_lines(*tree).len() == i);
                        assert(test_case@.document.len() != rendered_doc_lines(*tree).len());
                    }
                    return false;
                },
            }
        }
        match it.next() {
            Some(_) => {
                proof {
                    assert(all.skip((n + 1) as int).len() > 0);
                    assert(rendered_doc_lines(*tree).len() > n);
                }
                false
            },
            None => {
                proof {
                    assert(all.skip((n + 1) as int).len() == 0);
                    assert(all.len() == n + 1);
                    assert(test_case@.document =~= rendered_doc_lines(*tree));
                }
                true
            },
        }
    }
}

} // verus!
