use vstd::prelude::*;
use vstd::string::StringExecFns;

use crate::error::Error;
use crate::sql::ast::{
    Column, ColumnDef, CreateTableStatement, Expr, ExprResultColumn, ResultColumn, SelectCore,
    SelectFrom, SelectStatement, Statement, StatementView, Type,
};
use crate::sql::tokenizer::{self, spec_tokenize_from, Token, TokenView};

verus! {

/// The column type that a type name stands for.
pub open spec fn type_of_name(w: Seq<char>) -> Option<Type> {
    if w == "integer"@ {
        Some(Type::Integer)
    } else if w == "real"@ {
        Some(Type::Real)
    } else if w == "blob"@ {
        Some(Type::Blob)
    } else if w == "text"@ || w == "string"@ {
        Some(Type::Text)
    } else {
        None
    }
}

/// The position after token `t` at `p`, or the error that another token or the end gives.
pub open spec fn spec_expect_eq(ts: Seq<Token>, p: int, t: Token) -> Result<int, Error> {
    if p < 0 || p >= ts.len() {
        Err(Error::UnexpectedEndOfInput)
    } else if ts[p]@ == t@ {
        Ok(p + 1)
    } else {
        Err(Error::UnexpectedToken(ts[p]))
    }
}

/// The identifier at `p` and the position after it.
pub open spec fn spec_expect_identifier(ts: Seq<Token>, p: int) -> Result<(String, int), Error> {
    if p < 0 || p >= ts.len() {
        Err(Error::UnexpectedEndOfInput)
    } else {
        match ts[p] {
            Token::Identifier(s) => Ok((s, p + 1)),
            t => Err(Error::UnexpectedToken(t)),
        }
    }
}

/// `name type`
pub open spec fn spec_column_def(ts: Seq<Token>, p: int) -> Result<(ColumnDef, int), Error> {
    match spec_expect_identifier(ts, p) {
        Err(e) => Err(e),
        Ok((name, q)) => match spec_expect_identifier(ts, q) {
            Err(e) => Err(e),
            Ok((kind_name, r)) => match type_of_name(kind_name@) {
                None => Err(Error::UnsupportedType(kind_name)),
                Some(t) => Ok((ColumnDef { name, col_type: t }, r)),
            },
        },
    }
}

/// `(, column_def)*` from `p`.
pub open spec fn spec_more_column_defs(ts: Seq<Token>, p: int) -> Result<(Seq<ColumnDef>, int), Error>
    decreases ts.len() - p,
    via spec_more_column_defs_decreases
{
    if 0 <= p < ts.len() && ts[p] is Comma {
        match spec_column_def(ts, p + 1) {
            Err(e) => Err(e),
            Ok((d, q)) => match spec_more_column_defs(ts, q) {
                Err(e) => Err(e),
                Ok((ds, r)) => Ok((seq![d] + ds, r)),
            },
        }
    } else {
        Ok((Seq::empty(), p))
    }
}

#[via_fn]
proof fn spec_more_column_defs_decreases(ts: Seq<Token>, p: int) {
}

/// `CREATE TABLE name ( column_def (, column_def)* )`
pub open spec fn spec_create_table(ts: Seq<Token>, p: int) -> Result<(String, Seq<ColumnDef>, int), Error> {
    match spec_expect_eq(ts, p, Token::Create) {
        Err(e) => Err(e),
        Ok(pos1) => match spec_expect_eq(ts, pos1, Token::Table) {
            Err(e) => Err(e),
            Ok(pos2) => match spec_expect_identifier(ts, pos2) {
                Err(e) => Err(e),
                Ok((name, pos3)) => match spec_expect_eq(ts, pos3, Token::LPar) {
                    Err(e) => Err(e),
                    Ok(pos4) => match spec_column_def(ts, pos4) {
                        Err(e) => Err(e),
                        Ok((first, pos5)) => match spec_more_column_defs(ts, pos5) {
                            Err(e) => Err(e),
                            Ok((rest, pos6)) => match spec_expect_eq(ts, pos6, Token::RPar) {
                                Err(e) => Err(e),
                                Ok(pos7) => Ok((name, seq![first] + rest, pos7)),
                            },
                        },
                    },
                },
            },
        },
    }
}

/// A column reference: its name.
pub open spec fn spec_expr(ts: Seq<Token>, p: int) -> Result<(Expr, int), Error> {
    match spec_expect_identifier(ts, p) {
        Err(e) => Err(e),
        Ok((name, q)) => Ok((Expr::Column(Column { name }), q)),
    }
}

/// `expr [AS alias]`
pub open spec fn spec_expr_result_column(ts: Seq<Token>, p: int) -> Result<(ExprResultColumn, int), Error> {
    match spec_expr(ts, p) {
        Err(e) => Err(e),
        Ok((expr, q)) => if 0 <= q < ts.len() && ts[q] is As {
            match spec_expect_identifier(ts, q + 1) {
                Err(e) => Err(e),
                Ok((alias, r)) => Ok((ExprResultColumn { expr, alias: Some(alias) }, r)),
            }
        } else {
            Ok((ExprResultColumn { expr, alias: None }, q))
        },
    }
}

/// `*` or `expr [AS alias]`
pub open spec fn spec_result_column(ts: Seq<Token>, p: int) -> Result<(ResultColumn, int), Error> {
    if p < 0 || p >= ts.len() {
        Err(Error::UnexpectedEndOfInput)
    } else if ts[p] is Star {
        Ok((ResultColumn::Star, p + 1))
    } else {
        match spec_expr_result_column(ts, p) {
            Err(e) => Err(e),
            Ok((c, q)) => Ok((ResultColumn::Expr(c), q)),
        }
    }
}

proof fn lemma_result_column_advances(ts: Seq<Token>, p: int)
    ensures
        spec_result_column(ts, p) matches Ok((_, q)) ==> q > p,
{
}

/// `(, result_column)*` from `p`.
pub open spec fn spec_more_result_columns(ts: Seq<Token>, p: int) -> Result<(Seq<ResultColumn>, int), Error>
    decreases ts.len() - p,
    via spec_more_result_columns_decreases
{
    if 0 <= p < ts.len() && ts[p] is Comma {
        match spec_result_column(ts, p + 1) {
            Err(e) => Err(e),
            Ok((c, q)) => match spec_more_result_columns(ts, q) {
                Err(e) => Err(e),
                Ok((cs, r)) => Ok((seq![c] + cs, r)),
            },
        }
    } else {
        Ok((Seq::empty(), p))
    }
}

#[via_fn]
proof fn spec_more_result_columns_decreases(ts: Seq<Token>, p: int) {
    lemma_result_column_advances(ts, p + 1);
}

/// `SELECT result_column (, result_column)* FROM table`
pub open spec fn spec_select(ts: Seq<Token>, p: int) -> Result<(Seq<ResultColumn>, String, int), Error> {
    match spec_expect_eq(ts, p, Token::Select) {
        Err(e) => Err(e),
        Ok(pos1) => match spec_result_column(ts, pos1) {
            Err(e) => Err(e),
            Ok((first, pos2)) => match spec_more_result_columns(ts, pos2) {
                Err(e) => Err(e),
                Ok((rest, pos3)) => match spec_expect_eq(ts, pos3, Token::From) {
                    Err(e) => Err(e),
                    Ok(pos4) => match spec_expect_identifier(ts, pos4) {
                        Err(e) => Err(e),
                        Ok((table, pos5)) => Ok((seq![first] + rest, table, pos5)),
                    },
                },
            },
        },
    }
}

/// The statement that the tokens start with; tokens after it are not looked at.
pub open spec fn spec_parse_tokens(ts: Seq<Token>) -> Result<StatementView, Error> {
    if ts.len() == 0 {
        Err(Error::UnexpectedEndOfInput)
    } else if ts[0] is Select {
        match spec_select(ts, 0) {
            Err(e) => Err(e),
            Ok((result_columns, table, _)) => Ok(StatementView::Select { result_columns, table }),
        }
    } else if ts[0] is Create {
        match spec_create_table(ts, 0) {
            Err(e) => Err(e),
            Ok((name, columns, _)) => Ok(StatementView::CreateTable { name, columns }),
        }
    } else {
        Err(Error::UnexpectedToken(ts[0]))
    }
}

fn same_token(a: &Token, b: &Token) -> (r: bool)
    ensures
        r == (a@ == b@),
{
    match (a, b) {
        (Token::Create, Token::Create) => true,
        (Token::Table, Token::Table) => true,
        (Token::Select, Token::Select) => true,
        (Token::As, Token::As) => true,
        (Token::From, Token::From) => true,
        (Token::LPar, Token::LPar) => true,
        (Token::RPar, Token::RPar) => true,
        (Token::Star, Token::Star) => true,
        (Token::Comma, Token::Comma) => true,
        (Token::SemiColon, Token::SemiColon) => true,
        (Token::Identifier(x), Token::Identifier(y)) => *x == *y,
        _ => false,
    }
}

fn copy_token(t: &Token) -> (r: Token)
    ensures
        r == *t,
{
    match t {
        Token::Create => Token::Create,
        Token::Table => Token::Table,
        Token::Select => Token::Select,
        Token::As => Token::As,
        Token::From => Token::From,
        Token::LPar => Token::LPar,
        Token::RPar => Token::RPar,
        Token::Star => Token::Star,
        Token::Comma => Token::Comma,
        Token::SemiColon => Token::SemiColon,
        Token::Identifier(s) => Token::Identifier(s.clone()),
    }
}

/// Puts `pre` in front of the list that `r` holds, if it holds one.
pub open spec fn prepend_list<T>(pre: Seq<T>, r: Result<(Seq<T>, int), Error>) -> Result<(Seq<T>, int), Error> {
    match r {
        Ok((items, q)) => Ok((pre + items, q)),
        Err(e) => Err(e),
    }
}

struct ParserState {
    tokens: Vec<Token>,
    pos: usize,
}

impl ParserState {
    fn new(tokens: Vec<Token>) -> (r: Self)
        ensures
            r.tokens@ == tokens@,
            r.pos == 0,
    {
        Self { tokens, pos: 0 }
    }

    fn parse_statement(&mut self) -> (r: Result<Statement, Error>)
        requires
            old(self).pos == 0,
        ensures
            match r {
                Ok(s) => spec_parse_tokens(old(self).tokens@) == Ok::<StatementView, Error>(s@),
                Err(e) => spec_parse_tokens(old(self).tokens@) == Err::<StatementView, Error>(e),
            },
    {
        let is_select = match self.peak_next_token() {
            Err(e) => return Err(e),
            Ok(Token::Select) => true,
            Ok(Token::Create) => false,
            Ok(token) => return Err(Error::UnexpectedToken(copy_token(token))),
        };
        if is_select {
            let s = self.parse_select()?;
            Ok(Statement::Select(s))
        } else {
            let c = self.parse_create_table()?;
            Ok(Statement::CreateTable(c))
        }
    }

    fn parse_create_table(&mut self) -> (r: Result<CreateTableStatement, Error>)
        ensures
            final(self).tokens@ == old(self).tokens@,
            match spec_create_table(old(self).tokens@, old(self).pos as int) {
                Ok((name, columns, q)) => r matches Ok(c) && c.name == name && c.columns@ == columns
                    && final(self).pos == q,
                Err(e) => r == Err::<CreateTableStatement, Error>(e),
            },
    {
        self.expect_eq(Token::Create)?;
        self.expect_eq(Token::Table)?;
        let name = self.expect_identifier()?;
        self.expect_eq(Token::LPar)?;
        let first = self.parse_column_def()?;
        let ghost start = self.pos as int;
        let ghost ts = self.tokens@;
        let mut columns = vec![first];
        proof {
            assert(columns@.drop_first() =~= Seq::<ColumnDef>::empty());
            match spec_more_column_defs(ts, start) {
                Ok((ds, q)) => {
                    assert(Seq::<ColumnDef>::empty() + ds =~= ds);
                },
                Err(_) => {},
            }
        }
        while self.next_token_is(Token::Comma)
            invariant
                self.tokens@ == ts,
                ts == old(self).tokens@,
                self.pos <= ts.len(),
                spec_create_table(ts, old(self).pos as int) == match spec_more_column_defs(ts, start) {
                    Err(e) => Err(e),
                    Ok((rest, pos6)) => match spec_expect_eq(ts, pos6, Token::RPar) {
                        Err(e) => Err(e),
                        Ok(pos7) => Ok((name, seq![first] + rest, pos7)),
                    },
                },
                columns@.len() >= 1,
                columns@[0] == first,
                spec_more_column_defs(ts, start) == prepend_list(columns@.drop_first(), spec_more_column_defs(ts, self.pos as int)),
            decreases ts.len() - self.pos,
        {
            self.advance();
            let ghost before = columns@;
            let d = self.parse_column_def()?;
            columns.push(d);
            proof {
                assert(columns@.drop_first() =~= before.drop_first().push(d));
                match spec_more_column_defs(ts, self.pos as int) {
                    Ok((ds, q)) => {
                        assert(before.drop_first() + (seq![d] + ds) =~= before.drop_first().push(d) + ds);
                    },
                    Err(_) => {},
                }
            }
        }
        proof {
            assert(columns@.drop_first() + Seq::<ColumnDef>::empty() =~= columns@.drop_first());
            assert(seq![first] + columns@.drop_first() =~= columns@);
        }
        self.expect_eq(Token::RPar)?;
        Ok(CreateTableStatement { name, columns })
    }

    fn parse_column_def(&mut self) -> (r: Result<ColumnDef, Error>)
        ensures
            final(self).tokens@ == old(self).tokens@,
            match spec_column_def(old(self).tokens@, old(self).pos as int) {
                Ok((d, q)) => r == Ok::<ColumnDef, Error>(d) && final(self).pos == q && q <= old(self).tokens@.len(),
                Err(e) => r == Err::<ColumnDef, Error>(e),
            },
    {
        let name = self.expect_identifier()?;
        let col_type = self.parse_type()?;
        Ok(ColumnDef { name, col_type })
    }

    fn parse_type(&mut self) -> (r: Result<Type, Error>)
        ensures
            final(self).tokens@ == old(self).tokens@,
            match spec_expect_identifier(old(self).tokens@, old(self).pos as int) {
                Ok((w, q)) => final(self).pos == q && match type_of_name(w@) {
                    Some(t) => r == Ok::<Type, Error>(t),
                    None => r == Err::<Type, Error>(Error::UnsupportedType(w)),
                },
                Err(e) => r == Err::<Type, Error>(e),
            },
    {
        let kind_name = self.expect_identifier()?;
        if kind_name == String::from_str("integer") {
            Ok(Type::Integer)
        } else if kind_name == String::from_str("real") {
            Ok(Type::Real)
        } else if kind_name == String::from_str("blob") {
            Ok(Type::Blob)
        } else if kind_name == String::from_str("text") || kind_name == String::from_str("string") {
            Ok(Type::Text)
        } else {
            Err(Error::UnsupportedType(kind_name))
        }
    }

    fn parse_select(&mut self) -> (r: Result<SelectStatement, Error>)
        ensures
            final(self).tokens@ == old(self).tokens@,
            match spec_select(old(self).tokens@, old(self).pos as int) {
                Ok((columns, table, q)) => r matches Ok(s) && s.core.result_columns@ == columns
                    && s.core.from == SelectFrom::Table(table) && final(self).pos == q,
                Err(e) => r == Err::<SelectStatement, Error>(e),
            },
    {
        self.expect_eq(Token::Select)?;
        let result_columns = self.parse_result_columns()?;
        self.expect_eq(Token::From)?;
        let from = self.parse_select_from()?;
        Ok(SelectStatement { core: SelectCore { result_columns, from } })
    }

    fn parse_select_from(&mut self) -> (r: Result<SelectFrom, Error>)
        ensures
            final(self).tokens@ == old(self).tokens@,
            match spec_expect_identifier(old(self).tokens@, old(self).pos as int) {
                Ok((table, q)) => r == Ok::<SelectFrom, Error>(SelectFrom::Table(table)) && final(self).pos == q,
                Err(e) => r == Err::<SelectFrom, Error>(e),
            },
    {
        let table = self.expect_identifier()?;
        Ok(SelectFrom::Table(table))
    }

    fn parse_result_columns(&mut self) -> (r: Result<Vec<ResultColumn>, Error>)
        ensures
            final(self).tokens@ == old(self).tokens@,
            match spec_result_column(old(self).tokens@, old(self).pos as int) {
                Ok((first, p)) => match spec_more_result_columns(old(self).tokens@, p) {
                    Ok((rest, q)) => r matches Ok(cs) && cs@ == seq![first] + rest && final(self).pos == q,
                    Err(e) => r == Err::<Vec<ResultColumn>, Error>(e),
                },
                Err(e) => r == Err::<Vec<ResultColumn>, Error>(e),
            },
    {
        let first = self.parse_result_column()?;
        let ghost start = self.pos as int;
        let ghost ts = self.tokens@;
        let mut columns = vec![first];
        proof {
            assert(columns@.drop_first() =~= Seq::<ResultColumn>::empty());
            match spec_more_result_columns(ts, start) {
                Ok((cs, q)) => {
                    assert(Seq::<ResultColumn>::empty() + cs =~= cs);
                },
                Err(_) => {},
            }
        }
        while self.next_token_is(Token::Comma)
            invariant
                self.tokens@ == ts,
                ts == old(self).tokens@,
                self.pos <= ts.len(),
                spec_result_column(ts, old(self).pos as int) == Ok::<(ResultColumn, int), Error>((first, start)),
                columns@.len() >= 1,
                columns@[0] == first,
                spec_more_result_columns(ts, start) == prepend_list(columns@.drop_first(), spec_more_result_columns(ts, self.pos as int)),
            decreases ts.len() - self.pos,
        {
            self.advance();
            let ghost before = columns@;
            let c = self.parse_result_column()?;
            columns.push(c);
            proof {
                assert(columns@.drop_first() =~= before.drop_first().push(c));
                match spec_more_result_columns(ts, self.pos as int) {
                    Ok((cs, q)) => {
                        assert(before.drop_first() + (seq![c] + cs) =~= before.drop_first().push(c) + cs);
                    },
                    Err(_) => {},
                }
            }
        }
        proof {
            assert(columns@.drop_first() + Seq::<ResultColumn>::empty() =~= columns@.drop_first());
            assert(seq![first] + columns@.drop_first() =~= columns@);
        }
        Ok(columns)
    }

    fn parse_result_column(&mut self) -> (r: Result<ResultColumn, Error>)
        ensures
            final(self).tokens@ == old(self).tokens@,
            match spec_result_column(old(self).tokens@, old(self).pos as int) {
                Ok((c, q)) => r == Ok::<ResultColumn, Error>(c) && final(self).pos == q && q <= old(self).tokens@.len(),
                Err(e) => r == Err::<ResultColumn, Error>(e),
            },
    {
        let is_star = match self.peak_next_token() {
            Err(e) => return Err(e),
            Ok(token) => matches!(token, Token::Star),
        };
        if is_star {
            self.advance();
            return Ok(ResultColumn::Star);
        }
        let c = self.parse_expr_result_column()?;
        Ok(ResultColumn::Expr(c))
    }

    fn parse_expr_result_column(&mut self) -> (r: Result<ExprResultColumn, Error>)
        ensures
            final(self).tokens@ == old(self).tokens@,
            match spec_expr_result_column(old(self).tokens@, old(self).pos as int) {
                Ok((c, q)) => r == Ok::<ExprResultColumn, Error>(c) && final(self).pos == q && q <= old(self).tokens@.len(),
                Err(e) => r == Err::<ExprResultColumn, Error>(e),
            },
    {
        let expr = self.parse_expr()?;
        let alias = if self.next_token_is(Token::As) {
            self.advance();
            Some(self.expect_identifier()?)
        } else {
            None
        };
        Ok(ExprResultColumn { expr, alias })
    }

    fn parse_expr(&mut self) -> (r: Result<Expr, Error>)
        ensures
            final(self).tokens@ == old(self).tokens@,
            match spec_expr(old(self).tokens@, old(self).pos as int) {
                Ok((e, q)) => r == Ok::<Expr, Error>(e) && final(self).pos == q,
                Err(e) => r == Err::<Expr, Error>(e),
            },
    {
        let name = self.expect_identifier()?;
        Ok(Expr::Column(Column { name }))
    }

    fn next_token_is(&self, expected: Token) -> (r: bool)
        ensures
            r == (self.pos < self.tokens@.len() && self.tokens@[self.pos as int]@ == expected@),
    {
        self.pos < self.tokens.len() && same_token(&self.tokens[self.pos], &expected)
    }

    fn expect_identifier(&mut self) -> (r: Result<String, Error>)
        ensures
            final(self).tokens@ == old(self).tokens@,
            match spec_expect_identifier(old(self).tokens@, old(self).pos as int) {
                Ok((s, q)) => r == Ok::<String, Error>(s) && final(self).pos == q && q <= old(self).tokens@.len(),
                Err(e) => r == Err::<String, Error>(e),
            },
    {
        match self.next_token() {
            Some(Token::Identifier(s)) => Ok(s.clone()),
            Some(token) => Err(Error::UnexpectedToken(copy_token(token))),
            None => Err(Error::UnexpectedEndOfInput),
        }
    }

    fn expect_eq(&mut self, expected: Token) -> (r: Result<(), Error>)
        ensures
            final(self).tokens@ == old(self).tokens@,
            match spec_expect_eq(old(self).tokens@, old(self).pos as int, expected) {
                Ok(q) => r is Ok && final(self).pos == q && q <= old(self).tokens@.len(),
                Err(e) => r == Err::<(), Error>(e),
            },
    {
        match self.next_token() {
            Some(token) => if same_token(token, &expected) {
                Ok(())
            } else {
                Err(Error::UnexpectedToken(copy_token(token)))
            },
            None => Err(Error::UnexpectedEndOfInput),
        }
    }

    fn peak_next_token(&self) -> (r: Result<&Token, Error>)
        ensures
            match r {
                Ok(t) => self.pos < self.tokens@.len() && *t == self.tokens@[self.pos as int],
                Err(e) => self.pos >= self.tokens@.len() && e == Error::UnexpectedEndOfInput,
            },
    {
        if self.pos < self.tokens.len() {
            Ok(&self.tokens[self.pos])
        } else {
            Err(Error::UnexpectedEndOfInput)
        }
    }

    fn next_token(&mut self) -> (r: Option<&Token>)
        ensures
            final(self).tokens@ == old(self).tokens@,
            old(self).pos < old(self).tokens@.len() ==> r == Some(&old(self).tokens@[old(self).pos as int])
                && final(self).pos == old(self).pos + 1,
            old(self).pos >= old(self).tokens@.len() ==> r is None && final(self).pos == old(self).pos,
    {
        if self.pos < self.tokens.len() {
            let token = &self.tokens[self.pos];
            self.pos = self.pos + 1;
            Some(token)
        } else {
            None
        }
    }

    fn advance(&mut self)
        requires
            old(self).pos < old(self).tokens@.len(),
        ensures
            final(self).tokens@ == old(self).tokens@,
            final(self).pos == old(self).pos + 1,
    {
        if self.pos < self.tokens.len() {
            self.pos = self.pos + 1;
        }
    }
}

/// The view of each token.
pub open spec fn token_views(ts: Seq<Token>) -> Seq<TokenView> {
    ts.map_values(|t: Token| t@)
}

/// What parsing `input` gives: its tokens, then the statement they start with. The result
/// holds the identifiers' strings; their characters are what the tokens spell.
pub open spec fn spec_parse_statement(input: Seq<char>, r: Result<StatementView, Error>) -> bool {
    match spec_tokenize_from(input, 0) {
        Err(e) => r == Err::<StatementView, Error>(e),
        Ok(views) => exists|ts: Seq<Token>|
            #[trigger] token_views(ts) == views && spec_parse_tokens(ts) == r,
    }
}

/// Parses one `SELECT` or `CREATE TABLE` statement.
pub fn parse_statement(input: &str) -> (r: Result<Statement, Error>)
    ensures
        spec_parse_statement(input@, match r {
            Ok(s) => Ok::<StatementView, Error>(s@),
            Err(e) => Err::<StatementView, Error>(e),
        }),
{
    let tokens = tokenizer::tokenize(input)?;
    let ghost ts = tokens@;
    let mut state = ParserState::new(tokens);
    let statement = state.parse_statement();
    proof {
        assert(token_views(ts) == ts.map_values(|t: Token| t@));
    }
    statement
}

/// Parses a `CREATE TABLE` statement, as the schema holds them.
pub fn parse_create_statement(input: &str) -> (r: Result<CreateTableStatement, Error>)
    ensures
        match r {
            Ok(c) => spec_parse_statement(input@, Ok::<StatementView, Error>(StatementView::CreateTable { name: c.name, columns: c.columns@ })),
            Err(e) => spec_parse_statement(input@, Err::<StatementView, Error>(e)) || (e
                == Error::ExpectedCreateStatement && exists|v: StatementView|
                #[trigger] spec_parse_statement(input@, Ok::<StatementView, Error>(v)) && v is Select),
        },
{
    match parse_statement(input)? {
        Statement::CreateTable(c) => Ok(c),
        Statement::Select(s) => {
            proof {
                assert(spec_parse_statement(input@, Ok::<StatementView, Error>(Statement::Select(s)@)));
            }
            Err(Error::ExpectedCreateStatement)
        },
    }
}

/// Whether two token sequences spell the same tokens: same kinds, identifiers of the same
/// characters.
pub open spec fn alike(ts1: Seq<Token>, ts2: Seq<Token>) -> bool {
    ts1.len() == ts2.len() && forall|i: int| 0 <= i < ts1.len() ==> (#[trigger] ts1[i])@ == ts2[i]@
}

proof fn lemma_alike(ts1: Seq<Token>, ts2: Seq<Token>)
    requires
        token_views(ts1) == token_views(ts2),
    ensures
        alike(ts1, ts2),
{
    assert(token_views(ts1).len() == ts1.len());
    assert forall|i: int| 0 <= i < ts1.len() implies (#[trigger] ts1[i])@ == ts2[i]@ by {
        assert(token_views(ts1)[i] == ts1[i]@);
        assert(token_views(ts2)[i] == ts2[i]@);
    }
}

proof fn lemma_identifier_alike(ts1: Seq<Token>, ts2: Seq<Token>, p: int)
    requires
        alike(ts1, ts2),
    ensures
        spec_expect_identifier(ts1, p) is Ok <==> spec_expect_identifier(ts2, p) is Ok,
        spec_expect_identifier(ts1, p) is Ok ==> spec_expect_identifier(ts1, p)->Ok_0.0@
            == spec_expect_identifier(ts2, p)->Ok_0.0@ && spec_expect_identifier(ts1, p)->Ok_0.1
            == spec_expect_identifier(ts2, p)->Ok_0.1,
{
    if 0 <= p < ts1.len() {
        assert(ts1[p]@ == ts2[p]@);
    }
}

/// Whether two column lists name the same columns, with the same characters, and types.
pub open spec fn columns_alike(c1: Seq<ColumnDef>, c2: Seq<ColumnDef>) -> bool {
    &&& c1.len() == c2.len()
    &&& forall|i: int| 0 <= i < c1.len() ==> (#[trigger] c1[i]).name@ == c2[i].name@ && c1[i].col_type == c2[i].col_type
}

proof fn lemma_column_def_alike(ts1: Seq<Token>, ts2: Seq<Token>, p: int)
    requires
        alike(ts1, ts2),
    ensures
        spec_column_def(ts1, p) is Ok <==> spec_column_def(ts2, p) is Ok,
        spec_column_def(ts1, p) is Ok ==> spec_column_def(ts1, p)->Ok_0.1 == spec_column_def(ts2, p)->Ok_0.1
            && spec_column_def(ts1, p)->Ok_0.0.name@ == spec_column_def(ts2, p)->Ok_0.0.name@
            && spec_column_def(ts1, p)->Ok_0.0.col_type == spec_column_def(ts2, p)->Ok_0.0.col_type,
{
    lemma_identifier_alike(ts1, ts2, p);
    if spec_expect_identifier(ts1, p) is Ok {
        lemma_identifier_alike(ts1, ts2, spec_expect_identifier(ts1, p)->Ok_0.1);
    }
}

proof fn lemma_more_column_defs_alike(ts1: Seq<Token>, ts2: Seq<Token>, p: int)
    requires
        alike(ts1, ts2),
    ensures
        spec_more_column_defs(ts1, p) is Ok <==> spec_more_column_defs(ts2, p) is Ok,
        spec_more_column_defs(ts1, p) is Ok ==> spec_more_column_defs(ts1, p)->Ok_0.1
            == spec_more_column_defs(ts2, p)->Ok_0.1
            && columns_alike(spec_more_column_defs(ts1, p)->Ok_0.0, spec_more_column_defs(ts2, p)->Ok_0.0),
    decreases ts1.len() - p,
{
    if 0 <= p < ts1.len() {
        assert(ts1[p]@ == ts2[p]@);
        if ts1[p] is Comma {
            lemma_column_def_alike(ts1, ts2, p + 1);
            if spec_column_def(ts1, p + 1) is Ok {
                let q = spec_column_def(ts1, p + 1)->Ok_0.1;
                lemma_more_column_defs_alike(ts1, ts2, q);
                if spec_more_column_defs(ts1, q) is Ok {
                    let d1 = spec_column_def(ts1, p + 1)->Ok_0.0;
                    let d2 = spec_column_def(ts2, p + 1)->Ok_0.0;
                    let r1 = spec_more_column_defs(ts1, q)->Ok_0.0;
                    let r2 = spec_more_column_defs(ts2, q)->Ok_0.0;
                    let l1 = seq![d1] + r1;
                    let l2 = seq![d2] + r2;
                    assert forall|i: int| 0 <= i < l1.len() implies (#[trigger] l1[i]).name@ == l2[i].name@ && l1[i].col_type == l2[i].col_type by {
                        if i > 0 {
                            assert(l1[i] == r1[i - 1] && l2[i] == r2[i - 1]);
                        }
                    }
                }
            }
        }
    } else {
        assert(columns_alike(Seq::empty(), Seq::empty()));
    }
}

proof fn lemma_expect_eq_alike(ts1: Seq<Token>, ts2: Seq<Token>, p: int, t: Token)
    requires
        alike(ts1, ts2),
    ensures
        spec_expect_eq(ts1, p, t) is Ok <==> spec_expect_eq(ts2, p, t) is Ok,
        spec_expect_eq(ts1, p, t) is Ok ==> spec_expect_eq(ts1, p, t) == spec_expect_eq(ts2, p, t),
{
    if 0 <= p < ts1.len() {
        assert(ts1[p]@ == ts2[p]@);
    }
}

proof fn lemma_create_table_alike(ts1: Seq<Token>, ts2: Seq<Token>)
    requires
        alike(ts1, ts2),
        spec_create_table(ts1, 0) is Ok,
    ensures
        spec_create_table(ts2, 0) is Ok,
        spec_create_table(ts1, 0)->Ok_0.0@ == spec_create_table(ts2, 0)->Ok_0.0@,
        columns_alike(spec_create_table(ts1, 0)->Ok_0.1, spec_create_table(ts2, 0)->Ok_0.1),
{
    lemma_expect_eq_alike(ts1, ts2, 0, Token::Create);
    let pos1 = spec_expect_eq(ts1, 0, Token::Create)->Ok_0;
    lemma_expect_eq_alike(ts1, ts2, pos1, Token::Table);
    let pos2 = spec_expect_eq(ts1, pos1, Token::Table)->Ok_0;
    lemma_identifier_alike(ts1, ts2, pos2);
    let pos3 = spec_expect_identifier(ts1, pos2)->Ok_0.1;
    lemma_expect_eq_alike(ts1, ts2, pos3, Token::LPar);
    let pos4 = spec_expect_eq(ts1, pos3, Token::LPar)->Ok_0;
    lemma_column_def_alike(ts1, ts2, pos4);
    let pos5 = spec_column_def(ts1, pos4)->Ok_0.1;
    lemma_more_column_defs_alike(ts1, ts2, pos5);
    let pos6 = spec_more_column_defs(ts1, pos5)->Ok_0.1;
    lemma_expect_eq_alike(ts1, ts2, pos6, Token::RPar);
    let d1 = spec_column_def(ts1, pos4)->Ok_0.0;
    let d2 = spec_column_def(ts2, pos4)->Ok_0.0;
    let r1 = spec_more_column_defs(ts1, pos5)->Ok_0.0;
    let r2 = spec_more_column_defs(ts2, pos5)->Ok_0.0;
    let l1 = seq![d1] + r1;
    let l2 = seq![d2] + r2;
    assert forall|i: int| 0 <= i < l1.len() implies (#[trigger] l1[i]).name@ == l2[i].name@ && l1[i].col_type == l2[i].col_type by {
        if i > 0 {
            assert(l1[i] == r1[i - 1] && l2[i] == r2[i - 1]);
        }
    }
}

/// A text that parses to a `CREATE TABLE` statement parses to nothing else: not to an
/// error, not to a `SELECT`, and not to another table name or other columns. Two parses of
/// it agree on the characters of every name and on every column type.
pub proof fn lemma_create_parse_unique(input: Seq<char>, name: String, columns: Seq<ColumnDef>, r: Result<StatementView, Error>)
    requires
        spec_parse_statement(input, Ok::<StatementView, Error>(StatementView::CreateTable { name, columns })),
        spec_parse_statement(input, r),
    ensures
        r matches Ok(StatementView::CreateTable { name: name2, columns: columns2 }) && name2@ == name@
            && columns_alike(columns2, columns),
{
    let views = spec_tokenize_from(input, 0)->Ok_0;
    let ts1 = choose|ts: Seq<Token>| #[trigger] token_views(ts) == views && spec_parse_tokens(ts)
        == Ok::<StatementView, Error>(StatementView::CreateTable { name, columns });
    let ts2 = choose|ts: Seq<Token>| #[trigger] token_views(ts) == views && spec_parse_tokens(ts) == r;
    lemma_alike(ts1, ts2);
    assert(ts1[0]@ == ts2[0]@);
    assert(ts1[0] is Create);
    lemma_create_table_alike(ts1, ts2);
    let c1 = spec_create_table(ts1, 0)->Ok_0.1;
    let c2 = spec_create_table(ts2, 0)->Ok_0.1;
    assert forall|i: int| 0 <= i < c2.len() implies (#[trigger] c2[i]).name@ == c1[i].name@ && c2[i].col_type == c1[i].col_type by {
        assert(c1[i].name@ == c2[i].name@);
    }
}

} // verus!
