//! The parse tree that the reader produces, and the list builder.
use vstd::prelude::*;

verus! {

/// A decimal numeral exactly as written: its sign and its two digit runs
/// (ASCII digits), the second empty when there is no fractional part.
pub struct Decimal {
    pub negative: bool,
    pub int_digits: Vec<u8>,
    pub frac_digits: Vec<u8>,
}

/// The value of a [`Decimal`] in specifications.
pub struct Numeral {
    pub negative: bool,
    pub int_digits: Seq<u8>,
    pub frac_digits: Seq<u8>,
}

impl View for Decimal {
    type V = Numeral;

    open spec fn view(&self) -> Numeral {
        Numeral {
            negative: self.negative,
            int_digits: self.int_digits@,
            frac_digits: self.frac_digits@,
        }
    }
}

/// A parsed form. Numeric literals keep the digits they were written with.
pub enum Token {
    Nil,
    Int(i32),
    Float(Decimal),
    Complex(Decimal, Decimal),
    Bool(bool),
    Symbol(String),
    Char(char),
    Cons { first: Box<Token>, rest: Box<Token> },
}

/// The value of a [`Token`] in specifications.
pub enum Form {
    Nil,
    Int(i32),
    Float(Numeral),
    Complex(Numeral, Numeral),
    Bool(bool),
    Symbol(Seq<char>),
    Char(char),
    Cons(Box<Form>, Box<Form>),
}

pub open spec fn form_of(t: Token) -> Form
    decreases t,
{
    match t {
        Token::Nil => Form::Nil,
        Token::Int(v) => Form::Int(v),
        Token::Float(d) => Form::Float(d@),
        Token::Complex(re, im) => Form::Complex(re@, im@),
        Token::Bool(b) => Form::Bool(b),
        Token::Symbol(s) => Form::Symbol(s@),
        Token::Char(c) => Form::Char(c),
        Token::Cons { first, rest } => Form::Cons(Box::new(form_of(*first)), Box::new(form_of(*rest))),
    }
}

impl View for Token {
    type V = Form;

    open spec fn view(&self) -> Form {
        form_of(*self)
    }
}

/// The proper list of `items`, in order, ending in `Nil`.
pub open spec fn list_of(items: Seq<Form>) -> Form
    decreases items.len(),
{
    if items.len() == 0 {
        Form::Nil
    } else {
        Form::Cons(Box::new(items[0]), Box::new(list_of(items.drop_first())))
    }
}

/// The forms of a sequence of tokens.
pub open spec fn forms_of(ts: Seq<Token>) -> Seq<Form> {
    ts.map_values(|t: Token| t@)
}

/// Builds the proper list of the tokens in `a`, in order: `Nil` when `a` is empty.
pub fn array_to_list(a: Vec<Token>) -> (r: Token)
    ensures
        r@ == list_of(forms_of(a@)),
{
    let ghost items = forms_of(a@);
    let ghost n = a@.len();
    let mut v = a;
    let mut r = Token::Nil;
    assert(items.subrange(n as int, n as int).len() == 0);
    while v.len() > 0
        invariant
            v@.len() <= n,
            v@ =~= a@.subrange(0, v@.len() as int),
            n == a@.len(),
            items == forms_of(a@),
            r@ == list_of(items.subrange(v@.len() as int, n as int)),
        decreases v@.len(),
    {
        let k = v.len();
        let t = v.pop().unwrap();
        proof {
            assert(items.subrange(k - 1, n as int).drop_first() =~= items.subrange(k as int, n as int));
            assert(items[k - 1] == t@);
        }
        r = Token::Cons { first: Box::new(t), rest: Box::new(r) };
    }
    assert(items.subrange(0, n as int) =~= items);
    r
}

/// The list of a group of tokens read between one pair of parentheses.
pub fn token_f(a: Vec<Token>) -> (r: Token)
    ensures
        r@ == list_of(forms_of(a@)),
{
    array_to_list(a)
}

/// The token of a real literal: its sign, its integer digits, and its
/// fractional digits if it has any.
pub fn float_token(negative: bool, int_part: &[u8], float_part: Option<&[u8]>) -> (r: Token)
    ensures
        r@ == Form::Float(
            Numeral {
                negative,
                int_digits: int_part@,
                frac_digits: match float_part {
                    Some(f) => f@,
                    None => Seq::<u8>::empty(),
                },
            },
        ),
{
    let frac_digits = match float_part {
        Some(f) => vstd::slice::slice_to_vec(f),
        None => Vec::new(),
    };
    Token::Float(
        Decimal { negative, int_digits: vstd::slice::slice_to_vec(int_part), frac_digits },
    )
}

} // verus!
