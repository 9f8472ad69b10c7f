//! A reader of textual bytecode listings.
//!
//! A listing names every prototype in a header line and then gives its
//! instructions, one to a line, numbered from 1. An arrow in front of an
//! instruction marks it as the target of a jump, and an arrow behind it says
//! where the instruction jumps to. From that the reader tells where the
//! basic blocks of every prototype begin.

use regex::Regex;
use std::collections::HashMap;
use vstd::prelude::*;

verus! {

broadcast use vstd::std_specs::hash::group_hash_axioms;

/// What opens the instructions of a prototype.
pub const PROTOTYPE_HEADER: &'static str = "-- BYTECODE --";

/// An instruction line: its number, anything, and the name of the
/// instruction.
pub const INSTRUCTION: &'static str = r"([0-9]{4}).{4}[A-Z]{2,}";

/// An instruction that jumps.
pub const JUMP_TO: &'static str = r"=>\s([0-9]{4})";

/// An instruction that is jumped to.
pub const JUMP_FROM: &'static str = r"[0-9]{4}\s=>\s[A-Z]{2,}";

/// An instruction that is jumped to and jumps.
pub const JUMP_FROM_TO: &'static str = r"[0-9]{4}\s=>\s[A-Z]{2,}.*=>\s([0-9]{4})";

/// What a regular expression finds in a text.
#[derive(Debug, Clone, PartialEq, Eq)]
pub enum Found {
    /// The pattern is no regular expression.
    NoPattern,
    /// The pattern matches nowhere in the text.
    NoMatch,
    /// The pattern matches; with it comes what its first group holds at the
    /// leftmost match, if the pattern has such a group and it took part.
    Match(Option<String>),
}

/// What a regular expression finds in a text, as a mathematical value.
pub ghost enum FoundView {
    NoPattern,
    NoMatch,
    Match(Option<Seq<char>>),
}

impl View for Found {
    type V = FoundView;

    open spec fn view(&self) -> FoundView {
        match self {
            Found::NoPattern => FoundView::NoPattern,
            Found::NoMatch => FoundView::NoMatch,
            Found::Match(None) => FoundView::Match(None),
            Found::Match(Some(group)) => FoundView::Match(Some(group@)),
        }
    }
}

/// What `regex::Regex::captures` finds in a text with the regular
/// expression that `regex::Regex::new` makes of a pattern.
pub uninterp spec fn regex_found(pattern: Seq<char>, text: Seq<char>) -> FoundView;

/// The number that `str::parse::<u16>` reads from a text, if it reads one.
pub uninterp spec fn parsed_u16(text: Seq<char>) -> Option<u16>;

/// `part` stands somewhere in `text`.
pub open spec fn has_part(text: Seq<char>, part: Seq<char>) -> bool {
    exists|i: int| 0 <= i <= text.len() - part.len() && #[trigger] text.subrange(
        i,
        i + part.len(),
    ) == part
}

/// `regex::Regex::captures`, on the regular expression that
/// `regex::Regex::new` makes of the pattern: tells whether the pattern is a
/// regular expression, whether it matches somewhere in the text, and what
/// its first group holds at the leftmost match. The answer depends on the
/// pattern and the text alone.
#[verifier::external_body]
fn find(pattern: &str, text: &str) -> (r: Found)
    ensures
        r@ == regex_found(pattern@, text@),
{
    match Regex::new(pattern) {
        Ok(re) => match re.captures(text) {
            Some(found) => match found.get(1) {
                Some(group) => Found::Match(Some(group.as_str().to_string())),
                None => Found::Match(None),
            },
            None => Found::NoMatch,
        },
        Err(_) => Found::NoPattern,
    }
}

/// `str::parse::<u16>`: the number that the text spells, if it spells one
/// that fits.
#[verifier::external_body]
fn parse_number(text: &str) -> (r: Option<u16>)
    ensures
        r == parsed_u16(text@),
{
    match text.parse::<u16>() {
        Ok(n) => Some(n),
        Err(_) => None,
    }
}

/// `str::contains` with a string as the pattern: tells whether `part`
/// stands somewhere in `text`.
#[verifier::external_body]
fn contains_text(text: &str, part: &str) -> (r: bool)
    ensures
        r == has_part(text@, part@),
{
    text.contains(part)
}

/// The arrows of an instruction line.
#[derive(Debug, Clone, Copy, PartialEq, Eq, Structural)]
pub enum Jumps {
    /// The instruction is jumped to, and jumps.
    FromAndTo,
    /// The instruction jumps.
    To,
    /// The instruction is jumped to.
    From,
    /// Neither.
    Plain,
}

/// What a line of a listing is.
#[derive(Debug, Clone, Copy, PartialEq, Eq, Structural)]
pub enum LineKind {
    /// The line that opens a prototype.
    Header,
    /// An instruction, with its index counted from 0.
    Instruction { index: u16, jumps: Jumps },
    /// Anything else.
    Other,
}

/// Whether a pattern matches somewhere in a line, if it is a pattern.
pub open spec fn line_matches(pattern: Seq<char>, line: Seq<char>) -> Option<bool> {
    match regex_found(pattern, line) {
        FoundView::NoPattern => None,
        FoundView::NoMatch => Some(false),
        FoundView::Match(_) => Some(true),
    }
}

/// What a line is, as far as the listing can be read: a line that numbers
/// an instruction with 0, or with what is no number, cannot.
pub open spec fn line_kind(line: Seq<char>) -> Option<LineKind> {
    if has_part(line, PROTOTYPE_HEADER@) {
        Some(LineKind::Header)
    } else {
        match regex_found(INSTRUCTION@, line) {
            FoundView::NoPattern => None,
            FoundView::NoMatch => Some(LineKind::Other),
            FoundView::Match(None) => None,
            FoundView::Match(Some(digits)) => match (
                parsed_u16(digits),
                line_matches(JUMP_FROM_TO@, line),
                line_matches(JUMP_TO@, line),
                line_matches(JUMP_FROM@, line),
            ) {
                (Some(number), Some(from_to), Some(to), Some(from)) => if number == 0 {
                    None
                } else {
                    Some(
                        LineKind::Instruction {
                            index: (number - 1) as u16,
                            jumps: if from_to {
                                Jumps::FromAndTo
                            } else if to {
                                Jumps::To
                            } else if from {
                                Jumps::From
                            } else {
                                Jumps::Plain
                            },
                        },
                    )
                },
                _ => None,
            },
        }
    }
}

/// Tells whether a pattern matches somewhere in a line.
fn matches(pattern: &str, line: &str) -> (r: Option<bool>)
    ensures
        r == line_matches(pattern@, line@),
{
    match find(pattern, line) {
        Found::NoPattern => None,
        Found::NoMatch => Some(false),
        Found::Match(_) => Some(true),
    }
}

/// Tells what a line of a listing is.
pub fn classify_line(line: &str) -> (r: Option<LineKind>)
    ensures
        r == line_kind(line@),
{
    if contains_text(line, PROTOTYPE_HEADER) {
        return Some(LineKind::Header);
    }
    let digits = match find(INSTRUCTION, line) {
        Found::NoPattern => {
            return None;
        },
        Found::NoMatch => {
            return Some(LineKind::Other);
        },
        Found::Match(None) => {
            return None;
        },
        Found::Match(Some(digits)) => digits,
    };
    let number = parse_number(digits.as_str());
    let from_to = matches(JUMP_FROM_TO, line);
    let to = matches(JUMP_TO, line);
    let from = matches(JUMP_FROM, line);
    match (number, from_to, to, from) {
        (Some(number), Some(from_to), Some(to), Some(from)) => {
            if number == 0 {
                None
            } else {
                Some(
                    LineKind::Instruction {
                        index: number - 1,
                        jumps: if from_to {
                            Jumps::FromAndTo
                        } else if to {
                            Jumps::To
                        } else if from {
                            Jumps::From
                        } else {
                            Jumps::Plain
                        },
                    },
                )
            }
        },
        _ => None,
    }
}

/// The blocks of a prototype: for the index of every first instruction the
/// lines of the block.
pub type Blocks = Map<u16, Seq<Seq<char>>>;

/// The characters of every line.
pub open spec fn texts_of(lines: Seq<String>) -> Seq<Seq<char>> {
    lines.map_values(|line: String| line@)
}

/// The blocks that a map of lines stands for.
pub open spec fn blocks_of(m: Map<u16, Vec<String>>) -> Blocks {
    Map::new(|k: u16| m.dom().contains(k), |k: u16| texts_of(m[k]@))
}

/// `k` is the greatest key of the blocks.
pub open spec fn is_greatest(blocks: Blocks, k: u16) -> bool {
    blocks.dom().contains(k) && forall|j: u16| blocks.dom().contains(j) ==> j <= k
}

/// The greatest key of the blocks.
pub open spec fn greatest_key(blocks: Blocks) -> u16 {
    choose|k: u16| is_greatest(blocks, k)
}

/// The blocks with one more line at the end of the last block.
pub open spec fn with_line(blocks: Blocks, line: Seq<char>) -> Blocks {
    blocks.insert(greatest_key(blocks), blocks[greatest_key(blocks)].push(line))
}

/// The prototypes of a listing after one more line, or `None` where the
/// line cannot follow: an instruction needs a prototype, and a block behind
/// an instruction needs an index.
pub open spec fn after_line(protos: Seq<Blocks>, line: Seq<char>, kind: LineKind) -> Option<
    Seq<Blocks>,
> {
    match kind {
        LineKind::Header => Some(protos.push(Map::empty().insert(0u16, Seq::empty()))),
        LineKind::Other => Some(protos),
        LineKind::Instruction { index, jumps } => if protos.len() == 0 {
            None
        } else {
            let last = protos.last();
            match jumps {
                Jumps::FromAndTo => if index == u16::MAX {
                    None
                } else {
                    Some(
                        protos.update(
                            protos.len() - 1,
                            last.insert(index, seq![line]).insert((index + 1) as u16, Seq::empty()),
                        ),
                    )
                },
                Jumps::To => if index == u16::MAX {
                    None
                } else {
                    Some(
                        protos.update(
                            protos.len() - 1,
                            with_line(last, line).insert((index + 1) as u16, Seq::empty()),
                        ),
                    )
                },
                Jumps::From => Some(
                    protos.update(protos.len() - 1, last.insert(index, seq![line])),
                ),
                Jumps::Plain => Some(protos.update(protos.len() - 1, with_line(last, line))),
            }
        },
    }
}

/// The prototypes of a listing after the lines from `from` on.
pub open spec fn after_lines(protos: Seq<Blocks>, lines: Seq<Seq<char>>, from: int) -> Option<
    Seq<Blocks>,
>
    decreases lines.len() - from,
{
    if from >= lines.len() {
        Some(protos)
    } else {
        match line_kind(lines[from]) {
            None => None,
            Some(kind) => match after_line(protos, lines[from], kind) {
                None => None,
                Some(next) => after_lines(next, lines, from + 1),
            },
        }
    }
}

/// A listing that is being read.
pub struct Listing {
    prototypes: Vec<HashMap<u16, Vec<String>>>,
    greatest: u16,
}

impl View for Listing {
    type V = Seq<Blocks>;

    closed spec fn view(&self) -> Seq<Blocks> {
        self.prototypes@.map_values(|m: HashMap<u16, Vec<String>>| blocks_of(m@))
    }
}

proof fn lemma_greatest(blocks: Blocks, k: u16)
    requires
        is_greatest(blocks, k),
    ensures
        greatest_key(blocks) == k,
{
    let g = greatest_key(blocks);
    assert(is_greatest(blocks, g));
}

impl Listing {
    /// The greatest key of the last prototype is at hand.
    pub closed spec fn wf(&self) -> bool {
        self.prototypes@.len() > 0 ==> is_greatest(self@.last(), self.greatest)
    }

    /// A listing without a line.
    pub fn new() -> (l: Self)
        ensures
            l.wf(),
            l@ == Seq::<Blocks>::empty(),
    {
        let l = Listing { prototypes: Vec::new(), greatest: 0 };
        proof {
            assert(l@ =~= Seq::<Blocks>::empty());
        }
        l
    }

    /// The prototypes that were read.
    pub fn into_prototypes(self) -> (r: Vec<HashMap<u16, Vec<String>>>)
        ensures
            r@.map_values(|m: HashMap<u16, Vec<String>>| blocks_of(m@)) == self@,
    {
        self.prototypes
    }

    /// Takes one more line, which is of the given kind, into the listing.
    /// A line that cannot follow is not taken, and the result says so.
    pub fn add_line(&mut self, line: String, kind: LineKind) -> (taken: bool)
        requires
            old(self).wf(),
        ensures
            final(self).wf(),
            match after_line(old(self)@, line@, kind) {
                Some(next) => taken && final(self)@ == next,
                None => !taken && final(self)@ == old(self)@,
            },
    {
        let ghost before = self@;
        match kind {
            LineKind::Header => {
                let mut proto: HashMap<u16, Vec<String>> = HashMap::new();
                let none: Vec<String> = Vec::new();
                proof {
                    assert(texts_of(none@) =~= Seq::<Seq<char>>::empty());
                }
                proto.insert(0, none);
                proof {
                    assert(blocks_of(proto@) =~= Map::<u16, Seq<Seq<char>>>::empty().insert(
                        0u16,
                        Seq::empty(),
                    ));
                }
                self.prototypes.push(proto);
                self.greatest = 0;
                proof {
                    assert(self@ =~= before.push(blocks_of(proto@)));
                }
                true
            },
            LineKind::Other => true,
            LineKind::Instruction { index, jumps } => {
                let count = self.prototypes.len();
                if count == 0 {
                    return false;
                }
                if index == u16::MAX {
                    match jumps {
                        Jumps::FromAndTo | Jumps::To => {
                            return false;
                        },
                        _ => {},
                    }
                }
                let ghost last = before.last();
                let ghost text = line@;
                proof {
                    lemma_greatest(last, self.greatest);
                }
                let mut proto = self.prototypes.pop().unwrap();
                let mut greatest = self.greatest;
                let ghost held = self.prototypes@;
                proof {
                    assert(blocks_of(proto@) == last);
                }
                match jumps {
                    Jumps::FromAndTo => {
                        let mut block: Vec<String> = Vec::new();
                        block.push(line);
                        let none: Vec<String> = Vec::new();
                        proof {
                            assert(texts_of(block@) =~= seq![text]);
                            assert(texts_of(none@) =~= Seq::<Seq<char>>::empty());
                        }
                        proto.insert(index, block);
                        proto.insert(index + 1, none);
                        if index + 1 > greatest {
                            greatest = index + 1;
                        }
                        proof {
                            assert(blocks_of(proto@) =~= last.insert(index, seq![text]).insert(
                                (index + 1) as u16,
                                Seq::empty(),
                            ));
                        }
                    },
                    Jumps::To => {
                        let mut block = proto.remove(&greatest).unwrap();
                        let ghost lines = block@;
                        block.push(line);
                        proof {
                            assert(texts_of(block@) =~= texts_of(lines).push(text));
                        }
                        let none: Vec<String> = Vec::new();
                        proof {
                            assert(texts_of(none@) =~= Seq::<Seq<char>>::empty());
                        }
                        proto.insert(greatest, block);
                        proto.insert(index + 1, none);
                        if index + 1 > greatest {
                            greatest = index + 1;
                        }
                        proof {
                            assert(blocks_of(proto@) =~= with_line(last, text).insert(
                                (index + 1) as u16,
                                Seq::empty(),
                            ));
                        }
                    },
                    Jumps::From => {
                        let mut block: Vec<String> = Vec::new();
                        block.push(line);
                        proof {
                            assert(texts_of(block@) =~= seq![text]);
                        }
                        proto.insert(index, block);
                        if index > greatest {
                            greatest = index;
                        }
                        proof {
                            assert(blocks_of(proto@) =~= last.insert(index, seq![text]));
                        }
                    },
                    Jumps::Plain => {
                        let mut block = proto.remove(&greatest).unwrap();
                        let ghost lines = block@;
                        block.push(line);
                        proof {
                            assert(texts_of(block@) =~= texts_of(lines).push(text));
                        }
                        proto.insert(greatest, block);
                        proof {
                            assert(blocks_of(proto@) =~= with_line(last, text));
                        }
                    },
                }
                self.prototypes.push(proto);
                self.greatest = greatest;
                proof {
                    assert(held =~= old(self).prototypes@.drop_last());
                    assert(self@ =~= before.update(before.len() - 1, blocks_of(proto@)));
                }
                true
            },
        }
    }
}

/// Reads a listing from its lines: for every prototype, the lines of its
/// basic blocks under the index of their first instruction. The result is
/// `None` where a line cannot be read or cannot follow the lines before it.
pub fn parse_luajit_bytecode(lines: Vec<String>) -> (r: Option<Vec<HashMap<u16, Vec<String>>>>)
    ensures
        match after_lines(Seq::empty(), texts_of(lines@), 0) {
            Some(protos) => r is Some && r->Some_0@.map_values(
                |m: HashMap<u16, Vec<String>>| blocks_of(m@),
            ) == protos,
            None => r is None,
        },
{
    let mut listing = Listing::new();
    let mut i: usize = 0;
    let ghost all = texts_of(lines@);
    while i < lines.len()
        invariant
            i <= lines@.len(),
            all == texts_of(lines@),
            listing.wf(),
            after_lines(Seq::empty(), all, 0) == after_lines(listing@, all, i as int),
        decreases lines@.len() - i,
    {
        let line = lines[i].clone();
        proof {
            assert(all[i as int] == line@);
        }
        let kind = match classify_line(line.as_str()) {
            Some(kind) => kind,
            None => {
                return None;
            },
        };
        if !listing.add_line(line, kind) {
            return None;
        }
        i += 1;
    }
    Some(listing.into_prototypes())
}

} // verus!
