//! The tokenizer: yields the recognised instruction characters of a source
//! text in order and skips everything else.

use vstd::prelude::*;

verus! {

/// The symbol that [`Lexer::next`] returns once the source is exhausted.
pub const END_OF_INPUT: char = '@';

/// Whether `c` is one of the eight instruction characters.
pub open spec fn is_instruction(c: char) -> bool {
    c == '>' || c == '<' || c == '+' || c == '-' || c == '.' || c == ',' || c == '[' || c == ']'
}

/// The instruction characters of `text`, in order.
pub open spec fn instructions_of(text: Seq<char>) -> Seq<char> {
    text.filter(|c: char| is_instruction(c))
}

/// Every symbol is one of the eight instruction characters.
pub open spec fn all_instructions(tokens: Seq<char>) -> bool {
    forall|i: int| 0 <= i < tokens.len() ==> is_instruction(#[trigger] tokens[i])
}

/// Splitting off the first character of a text splits its instruction
/// characters in the same way.
pub proof fn lemma_instructions_of_first(text: Seq<char>)
    requires
        text.len() > 0,
    ensures
        instructions_of(text) == if is_instruction(text[0]) {
            seq![text[0]] + instructions_of(text.drop_first())
        } else {
            instructions_of(text.drop_first())
        },
{
    let pred = |c: char| is_instruction(c);
    let head = seq![text[0]];
    assert(text =~= head + text.drop_first());
    Seq::filter_distributes_over_add(head, text.drop_first(), pred);
    assert(head.filter(pred) =~= if is_instruction(text[0]) {
        head
    } else {
        Seq::empty()
    }) by {
        reveal_with_fuel(Seq::filter, 2);
        assert(head.drop_last() =~= Seq::<char>::empty());
    }
}

/// What is left of a text holds instruction characters only.
pub proof fn lemma_instructions_of_are_instructions(text: Seq<char>)
    ensures
        all_instructions(instructions_of(text)),
{
    let pred = |c: char| is_instruction(c);
    assert forall|i: int| 0 <= i < instructions_of(text).len() implies is_instruction(
        #[trigger] instructions_of(text)[i],
    ) by {
        text.lemma_filter_pred(pred, i);
    }
}

/// Appending text appends its instruction characters.
pub proof fn lemma_instructions_of_concat(a: Seq<char>, b: Seq<char>)
    ensures
        instructions_of(a + b) == instructions_of(a) + instructions_of(b),
{
    Seq::filter_distributes_over_add(a, b, |c: char| is_instruction(c));
}

/// A forward-only cursor over the instruction characters of a source text.
pub struct Lexer {
    position_in_code: usize,
    content: Vec<char>,
}

impl Lexer {
    /// The scan position never runs past the content.
    pub open spec fn wf(&self) -> bool {
        self.position() <= self.content().len()
    }

    /// Everything that was handed to the lexer so far.
    pub closed spec fn content(&self) -> Seq<char> {
        self.content@
    }

    /// How many characters of the content have been scanned.
    pub closed spec fn position(&self) -> nat {
        self.position_in_code as nat
    }

    /// The symbols that the lexer has yet to yield.
    pub open spec fn pending(&self) -> Seq<char> {
        instructions_of(self.content().skip(self.position() as int))
    }

    /// A lexer with no content.
    pub fn new() -> (lexer: Lexer)
        ensures
            lexer.wf(),
            lexer.content() == Seq::<char>::empty(),
            lexer.position() == 0,
    {
        Lexer { position_in_code: 0, content: Vec::new() }
    }

    /// Appends `code` to the content. What was scanned stays scanned.
    pub fn fill(&mut self, code: &str)
        requires
            old(self).wf(),
        ensures
            final(self).wf(),
            final(self).content() == old(self).content() + code@,
            final(self).position() == old(self).position(),
    {
        let ghost before = self.content@;
        let mut chars = code.chars();
        for c in it: chars
            invariant
                self.position_in_code == old(self).position_in_code,
                self.content@ == before + it.seq().take(it.index() as int),
        {
            self.content.push(c);
        }
    }

    /// Whether `inst` is one of the eight instruction characters.
    pub fn is_valid_brainfuck_instruction(&self, inst: char) -> (valid: bool)
        ensures
            valid == is_instruction(inst),
    {
        inst == '>' || inst == '<' || inst == '+' || inst == '-' || inst == '.' || inst == ','
            || inst == '[' || inst == ']'
    }

    /// Yields the next instruction character, or [`END_OF_INPUT`] once none
    /// is left; every later call yields [`END_OF_INPUT`] again.
    pub fn next(&mut self) -> (symbol: char)
        requires
            old(self).wf(),
        ensures
            final(self).wf(),
            final(self).content() == old(self).content(),
            old(self).pending().len() == 0 ==> {
                &&& symbol == END_OF_INPUT
                &&& final(self).position() == old(self).content().len()
                &&& final(self).pending().len() == 0
            },
            old(self).pending().len() > 0 ==> {
                &&& symbol == old(self).pending()[0]
                &&& is_instruction(symbol)
                &&& final(self).pending() == old(self).pending().drop_first()
                &&& old(self).position() < final(self).position() <= old(self).content().len()
                &&& old(self).content()[final(self).position() - 1] == symbol
                &&& forall|k: int|
                    old(self).position() <= k < final(self).position() - 1 ==> !is_instruction(
                        #[trigger] old(self).content()[k],
                    )
            },
    {
        let ghost text = self.content@;
        let ghost start = self.position_in_code as int;
        while self.position_in_code < self.content.len() && !self.is_valid_brainfuck_instruction(
            self.content[self.position_in_code],
        )
            invariant
                self.content@ == text,
                start <= self.position_in_code <= text.len(),
                instructions_of(text.skip(self.position_in_code as int)) == instructions_of(
                    text.skip(start),
                ),
                forall|k: int|
                    start <= k < self.position_in_code ==> !is_instruction(#[trigger] text[k]),
            decreases text.len() - self.position_in_code,
        {
            proof {
                let here = self.position_in_code as int;
                lemma_instructions_of_first(text.skip(here));
                assert(text.skip(here).drop_first() =~= text.skip(here + 1));
            }
            self.position_in_code += 1;
        }

        if self.position_in_code >= self.content.len() {
            proof {
                assert(text.skip(text.len() as int) =~= Seq::<char>::empty());
                text.skip(text.len() as int).lemma_filter_len(|c: char| is_instruction(c));
            }
            return END_OF_INPUT;
        }
        let r = self.content[self.position_in_code];
        proof {
            let here = self.position_in_code as int;
            lemma_instructions_of_first(text.skip(here));
            assert(text.skip(here).drop_first() =~= text.skip(here + 1));
            assert(instructions_of(text.skip(start)).drop_first() =~= instructions_of(
                text.skip(here + 1),
            ));
        }
        self.position_in_code += 1;
        r
    }
}

} // verus!
