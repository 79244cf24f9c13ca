//! Driving Xfoil: the configuration of a run, the command script fed to Xfoil's
//! standard input, and the columns of the polar file it writes.
//!
//! Angles and lift coefficients reach this module as the text that stands for them in
//! Xfoil's commands.

use vstd::prelude::*;
use crate::text::{
    chars_of, concat, decimal, extend_chars, join_strings, joined, push_decimal, string_of,
    string_views, views, words, words_of,
};

verus! {

#[verifier::external_type_specification]
#[verifier::external_body]
pub struct ExIoError(std::io::Error);

#[verifier::external_type_specification]
#[verifier::external_body]
pub struct ExParseFloatError(std::num::ParseFloatError);

#[verifier::external_type_specification]
#[verifier::external_body]
pub struct ExFromUtf8Error(std::string::FromUtf8Error);

/// What can go wrong in an Xfoil calculation.
pub enum XfoilError {
    IoError(std::io::Error),
    ParseError(std::num::ParseFloatError),
    ReadOutputError(std::string::FromUtf8Error),
    ConvergenceError,
}

impl From<std::io::Error> for XfoilError {
    fn from(error: std::io::Error) -> (r: Self) {
        XfoilError::IoError(error)
    }
}

impl vstd::std_specs::convert::FromSpecImpl<std::io::Error> for XfoilError {
    open spec fn obeys_from_spec() -> bool {
        true
    }

    open spec fn from_spec(v: std::io::Error) -> Self {
        XfoilError::IoError(v)
    }
}

impl From<std::num::ParseFloatError> for XfoilError {
    fn from(error: std::num::ParseFloatError) -> (r: Self) {
        XfoilError::ParseError(error)
    }
}

impl vstd::std_specs::convert::FromSpecImpl<std::num::ParseFloatError> for XfoilError {
    open spec fn obeys_from_spec() -> bool {
        true
    }

    open spec fn from_spec(v: std::num::ParseFloatError) -> Self {
        XfoilError::ParseError(v)
    }
}

impl From<std::string::FromUtf8Error> for XfoilError {
    fn from(error: std::string::FromUtf8Error) -> (r: Self) {
        XfoilError::ReadOutputError(error)
    }
}

impl vstd::std_specs::convert::FromSpecImpl<std::string::FromUtf8Error> for XfoilError {
    open spec fn obeys_from_spec() -> bool {
        true
    }

    open spec fn from_spec(v: std::string::FromUtf8Error) -> Self {
        XfoilError::ReadOutputError(v)
    }
}

impl XfoilError {
    /// The error as shown to a user: the same text for every kind.
    pub fn to_string(&self) -> (s: String)
        ensures
            s@ == "Internal xfoil error"@,
    {
        "Internal xfoil error".to_string()
    }

    /// A short description of the error.
    pub fn description(&self) -> (s: &'static str)
        ensures
            s@ == "Error occured in xfoil calculation"@,
    {
        "Error occured in xfoil calculation"
    }
}

/// What Xfoil is asked to compute, each number as the text Xfoil reads.
pub enum Mode {
    Angle(String),
    AngleBatch(Vec<String>),
    AngleRange(String, String, String),
    Cl(String),
}

/// The Xfoil commands that a mode asks for.
pub open spec fn mode_lines(m: Mode) -> Seq<Seq<char>> {
    match m {
        Mode::Angle(a) => seq!["a "@ + a@],
        Mode::Cl(c) => seq!["cl "@ + c@],
        Mode::AngleBatch(v) => string_views(v@).map_values(|a: Seq<char>| "a "@ + a),
        Mode::AngleRange(s, e, st) => seq!["aseq "@ + s@ + " "@ + e@ + " "@ + st@],
    }
}

/// The configuration of an Xfoil run.
pub struct FoxConfig {
    mode: Mode,
    reynolds: Option<usize>,
    path: String,
    polar: Option<String>,
    naca: Option<String>,
    dat_file: Option<String>,
}

/// The text of an optional string.
pub open spec fn opt_view(o: Option<String>) -> Option<Seq<char>> {
    match o {
        Some(s) => Some(s@),
        None => None,
    }
}

impl FoxConfig {
    /// The commands that the configured mode asks for.
    pub closed spec fn mode_commands(&self) -> Seq<Seq<char>> {
        mode_lines(self.mode)
    }

    /// The Reynolds number of a viscous calculation, if one was set.
    pub closed spec fn reynolds_number(&self) -> Option<usize> {
        self.reynolds
    }

    /// The path of the Xfoil program.
    pub closed spec fn program(&self) -> Seq<char> {
        self.path@
    }

    /// The polar file that results are accumulated into, if any.
    pub closed spec fn polar_file(&self) -> Option<Seq<char>> {
        opt_view(self.polar)
    }

    /// The NACA code of the airfoil, if one was set.
    pub closed spec fn naca_code(&self) -> Option<Seq<char>> {
        opt_view(self.naca)
    }

    /// The file of airfoil coordinates, if one was set.
    pub closed spec fn dat_path(&self) -> Option<Seq<char>> {
        opt_view(self.dat_file)
    }

    /// An airfoil is given, by a NACA code or a coordinates file.
    pub open spec fn has_airfoil(&self) -> bool {
        self.naca_code() is Some || self.dat_path() is Some
    }
}

/// The commands that load the airfoil: a NACA code, or else a coordinates file.
pub open spec fn airfoil_lines(naca: Option<Seq<char>>, dat: Option<Seq<char>>) -> Seq<Seq<char>> {
    match naca {
        Some(n) => seq!["naca "@ + n],
        None => seq!["load "@ + dat->0, Seq::<char>::empty()],
    }
}

/// The command that sets the Reynolds number, if there is one.
pub open spec fn viscous_lines(reynolds: Option<usize>) -> Seq<Seq<char>> {
    match reynolds {
        Some(r) => seq!["v "@ + decimal(r as nat)],
        None => Seq::<Seq<char>>::empty(),
    }
}

/// The commands that accumulate results into a polar file, if there is one.
pub open spec fn accumulate_lines(polar: Option<Seq<char>>) -> Seq<Seq<char>> {
    match polar {
        Some(p) => seq!["pacc"@, p, Seq::<char>::empty()],
        None => Seq::<Seq<char>>::empty(),
    }
}

/// The whole command script Xfoil is fed for a configuration: plotting off, the
/// airfoil, the OPER menu, the Reynolds number, polar accumulation, the mode's
/// commands, and a final `quit`.
pub open spec fn script(c: FoxConfig) -> Seq<Seq<char>> {
    seq!["plop"@, "G"@, Seq::<char>::empty()] + airfoil_lines(c.naca_code(), c.dat_path())
        + seq!["oper"@] + viscous_lines(c.reynolds_number()) + accumulate_lines(c.polar_file())
        + c.mode_commands() + seq![Seq::<char>::empty(), "quit"@]
}

/// Two configurations agree in all but their mode: program, Reynolds number, polar
/// file and airfoil.
pub open spec fn same_setup(c: FoxConfig, d: FoxConfig) -> bool {
    &&& c.reynolds_number() == d.reynolds_number()
    &&& c.program() == d.program()
    &&& c.polar_file() == d.polar_file()
    &&& c.naca_code() == d.naca_code()
    &&& c.dat_path() == d.dat_path()
}

/// A later angle of attack replaces a lift-coefficient mode: `m` is `c` with the mode
/// `cl <cl>` (as `lift_coefficient` leaves it), `r1` is `m` at angle `a` and `r2` is `c`
/// at angle `a` (as `aoa` leaves them); both give the same script, whose mode commands
/// are the one line `a <a>`, with no `cl` command.
pub proof fn lemma_aoa_replaces_lift_coefficient(
    c: FoxConfig,
    m: FoxConfig,
    r1: FoxConfig,
    r2: FoxConfig,
    cl: Seq<char>,
    a: Seq<char>,
)
    requires
        same_setup(c, m),
        m.mode_commands() == seq!["cl "@ + cl],
        same_setup(m, r1),
        r1.mode_commands() == seq!["a "@ + a],
        same_setup(c, r2),
        r2.mode_commands() == seq!["a "@ + a],
    ensures
        script(r1) == script(r2),
        r1.mode_commands() == seq!["a "@ + a],
        forall|k: int| 0 <= k < r1.mode_commands().len() ==> !("cl "@).is_prefix_of(#[trigger] r1.mode_commands()[k]),
{
    reveal_strlit("cl ");
    reveal_strlit("a ");
    let line = r1.mode_commands()[0];
    assert(line == "a "@ + a);
    assert(line[0] == 'a');
    if ("cl "@).is_prefix_of(line) {
        assert(("cl "@)[0] == line[0]);
    }
}

/// A configured Xfoil run: the program, the command script and the polar file.
pub struct XfoilRunner {
    xfoil_path: String,
    command_sequence: Vec<String>,
    polar: Option<String>,
}

impl XfoilRunner {
    /// The path of the Xfoil program.
    pub closed spec fn program(&self) -> Seq<char> {
        self.xfoil_path@
    }

    /// The commands fed to Xfoil, one per line.
    pub closed spec fn commands(&self) -> Seq<Seq<char>> {
        string_views(self.command_sequence@)
    }

    /// The polar file that Xfoil writes its results to, if any.
    pub closed spec fn polar_file(&self) -> Option<Seq<char>> {
        opt_view(self.polar)
    }
}

fn push_line(seq: &mut Vec<String>, line: &str)
    ensures
        string_views(final(seq)@) == string_views(old(seq)@).push(line@),
{
    seq.push(line.to_string());
    assert(string_views(seq@) =~= string_views(old(seq)@).push(line@));
}

fn copy_opt(o: &Option<String>) -> (r: Option<String>)
    ensures
        opt_view(r) == opt_view(*o),
{
    match o {
        Some(s) => Some(s.clone()),
        None => None,
    }
}

impl FoxConfig {
    /// A configuration for the Xfoil program at `path`: angle of attack `0`, no
    /// airfoil, no Reynolds number, no polar file.
    pub fn new(path: String) -> (r: Self)
        ensures
            r.mode_commands() == seq!["a 0"@],
            r.reynolds_number() is None,
            r.program() == path@,
            r.polar_file() is None,
            r.naca_code() is None,
            r.dat_path() is None,
    {
        proof {
            reveal_strlit("0");
            reveal_strlit("a 0");
            reveal_strlit("a ");
        }
        assert("a "@ + "0"@ =~= "a 0"@);
        FoxConfig {
            mode: Mode::Angle("0".to_string()),
            reynolds: None,
            path,
            polar: None,
            naca: None,
            dat_file: None,
        }
    }

    /// The same configuration with another mode.
    pub fn mode(self, mode: Mode) -> (r: Self)
        ensures
            r.mode_commands() == mode_lines(mode),
            r.reynolds_number() == self.reynolds_number(),
            r.program() == self.program(),
            r.polar_file() == self.polar_file(),
            r.naca_code() == self.naca_code(),
            r.dat_path() == self.dat_path(),
    {
        FoxConfig { mode, ..self }
    }

    /// The same configuration at one angle of attack.
    pub fn aoa(self, angle: String) -> (r: Self)
        ensures
            r.mode_commands() == seq!["a "@ + angle@],
            r.reynolds_number() == self.reynolds_number(),
            r.program() == self.program(),
            r.polar_file() == self.polar_file(),
            r.naca_code() == self.naca_code(),
            r.dat_path() == self.dat_path(),
    {
        self.mode(Mode::Angle(angle))
    }

    /// The same configuration at each of a list of angles of attack.
    pub fn aoa_batch(self, angles: Vec<String>) -> (r: Self)
        ensures
            r.mode_commands() == string_views(angles@).map_values(|a: Seq<char>| "a "@ + a),
            r.reynolds_number() == self.reynolds_number(),
            r.program() == self.program(),
            r.polar_file() == self.polar_file(),
            r.naca_code() == self.naca_code(),
            r.dat_path() == self.dat_path(),
    {
        self.mode(Mode::AngleBatch(angles))
    }

    /// The same configuration over a range of angles of attack.
    pub fn aoa_range(self, start: String, end: String, step: String) -> (r: Self)
        ensures
            r.mode_commands() == seq!["aseq "@ + start@ + " "@ + end@ + " "@ + step@],
            r.reynolds_number() == self.reynolds_number(),
            r.program() == self.program(),
            r.polar_file() == self.polar_file(),
            r.naca_code() == self.naca_code(),
            r.dat_path() == self.dat_path(),
    {
        self.mode(Mode::AngleRange(start, end, step))
    }

    /// The same configuration at one lift coefficient.
    pub fn lift_coefficient(self, cl: String) -> (r: Self)
        ensures
            r.mode_commands() == seq!["cl "@ + cl@],
            r.reynolds_number() == self.reynolds_number(),
            r.program() == self.program(),
            r.polar_file() == self.polar_file(),
            r.naca_code() == self.naca_code(),
            r.dat_path() == self.dat_path(),
    {
        FoxConfig { mode: Mode::Cl(cl), ..self }
    }

    /// The same configuration, accumulating results into the polar file `fname`.
    pub fn polar_accumulation(self, fname: String) -> (r: Self)
        ensures
            r.mode_commands() == self.mode_commands(),
            r.reynolds_number() == self.reynolds_number(),
            r.program() == self.program(),
            r.polar_file() == Some(fname@),
            r.naca_code() == self.naca_code(),
            r.dat_path() == self.dat_path(),
    {
        FoxConfig { polar: Some(fname), ..self }
    }

    /// The same configuration for the NACA airfoil `code`, forgetting any
    /// coordinates file.
    pub fn naca(self, code: &str) -> (r: Self)
        ensures
            r.mode_commands() == self.mode_commands(),
            r.reynolds_number() == self.reynolds_number(),
            r.program() == self.program(),
            r.polar_file() == self.polar_file(),
            r.naca_code() == Some(code@),
            r.dat_path() is None,
    {
        FoxConfig { naca: Some(code.to_string()), dat_file: None, ..self }
    }

    /// The same configuration for the airfoil whose coordinates are in `path`,
    /// forgetting any NACA code.
    pub fn airfoil_polar_file(self, path: String) -> (r: Self)
        ensures
            r.mode_commands() == self.mode_commands(),
            r.reynolds_number() == self.reynolds_number(),
            r.program() == self.program(),
            r.polar_file() == self.polar_file(),
            r.naca_code() is None,
            r.dat_path() == Some(path@),
    {
        FoxConfig { dat_file: Some(path), naca: None, ..self }
    }

    /// The same configuration with a viscous calculation at Reynolds number
    /// `reynolds`.
    pub fn reynolds(self, reynolds: usize) -> (r: Self)
        ensures
            r.mode_commands() == self.mode_commands(),
            r.reynolds_number() == Some(reynolds),
            r.program() == self.program(),
            r.polar_file() == self.polar_file(),
            r.naca_code() == self.naca_code(),
            r.dat_path() == self.dat_path(),
    {
        FoxConfig { reynolds: Some(reynolds), ..self }
    }

    /// The runner for this configuration: its command script is `script(self)`.
    pub fn get_runner(self) -> (r: Result<XfoilRunner, XfoilError>)
        requires
            self.has_airfoil(),
        ensures
            r matches Ok(x) && x.commands() == script(self) && x.program() == self.program()
                && x.polar_file() == self.polar_file(),
    {
        let ghost me = self;
        let mut seq: Vec<String> = Vec::new();
        assert(string_views(seq@) =~= Seq::<Seq<char>>::empty());
        push_opening(&mut seq);
        push_airfoil(&mut seq, &self.naca, &self.dat_file);
        push_oper(&mut seq);
        push_viscous(&mut seq, self.reynolds);
        push_accumulate(&mut seq, &self.polar);
        push_mode(&mut seq, &self.mode);
        push_closing(&mut seq);
        assert(string_views(seq@) =~= script(me));
        Ok(XfoilRunner { xfoil_path: self.path, command_sequence: seq, polar: self.polar })
    }
}

fn push_opening(seq: &mut Vec<String>)
    ensures
        string_views(final(seq)@) == string_views(old(seq)@) + seq!["plop"@, "G"@, Seq::<char>::empty()],
{
    proof {
        reveal_strlit("");
    }
    assert(""@ =~= Seq::<char>::empty());
    push_line(seq, "plop");
    push_line(seq, "G");
    push_line(seq, "");
    assert(string_views(seq@) =~= string_views(old(seq)@) + seq!["plop"@, "G"@, Seq::<char>::empty()]);
}

fn push_oper(seq: &mut Vec<String>)
    ensures
        string_views(final(seq)@) == string_views(old(seq)@) + seq!["oper"@],
{
    push_line(seq, "oper");
    assert(string_views(seq@) =~= string_views(old(seq)@) + seq!["oper"@]);
}

fn push_closing(seq: &mut Vec<String>)
    ensures
        string_views(final(seq)@) == string_views(old(seq)@) + seq![Seq::<char>::empty(), "quit"@],
{
    proof {
        reveal_strlit("");
    }
    assert(""@ =~= Seq::<char>::empty());
    push_line(seq, "");
    push_line(seq, "quit");
    assert(string_views(seq@) =~= string_views(old(seq)@) + seq![Seq::<char>::empty(), "quit"@]);
}

fn push_airfoil(seq: &mut Vec<String>, naca: &Option<String>, dat: &Option<String>)
    requires
        opt_view(*naca) is Some || opt_view(*dat) is Some,
    ensures
        string_views(final(seq)@) == string_views(old(seq)@) + airfoil_lines(opt_view(*naca), opt_view(*dat)),
{
    proof {
        reveal_strlit("");
    }
    assert(""@ =~= Seq::<char>::empty());
    match naca {
        Some(n) => {
            let line = concat("naca ", n.as_str());
            push_line(seq, line.as_str());
        },
        None => {
            if let Some(d) = dat {
                let line = concat("load ", d.as_str());
                push_line(seq, line.as_str());
                push_line(seq, "");
            }
        },
    }
    assert(string_views(seq@) =~= string_views(old(seq)@) + airfoil_lines(opt_view(*naca), opt_view(*dat)));
}

fn push_viscous(seq: &mut Vec<String>, reynolds: Option<usize>)
    ensures
        string_views(final(seq)@) == string_views(old(seq)@) + viscous_lines(reynolds),
{
    if let Some(re) = reynolds {
        let mut v = chars_of("v ");
        push_decimal(&mut v, re as u64);
        let line = string_of(&v);
        push_line(seq, line.as_str());
    }
    assert(string_views(seq@) =~= string_views(old(seq)@) + viscous_lines(reynolds));
}

fn push_accumulate(seq: &mut Vec<String>, polar: &Option<String>)
    ensures
        string_views(final(seq)@) == string_views(old(seq)@) + accumulate_lines(opt_view(*polar)),
{
    proof {
        reveal_strlit("");
    }
    assert(""@ =~= Seq::<char>::empty());
    if let Some(p) = polar {
        push_line(seq, "pacc");
        push_line(seq, p.as_str());
        push_line(seq, "");
    }
    assert(string_views(seq@) =~= string_views(old(seq)@) + accumulate_lines(opt_view(*polar)));
}

fn push_mode(seq: &mut Vec<String>, mode: &Mode)
    ensures
        string_views(final(seq)@) == string_views(old(seq)@) + mode_lines(*mode),
{
    let ghost s4 = string_views(seq@);
    match mode {
        Mode::Angle(a) => {
            let line = concat("a ", a.as_str());
            push_line(seq, line.as_str());
        },
        Mode::Cl(c) => {
            let line = concat("cl ", c.as_str());
            push_line(seq, line.as_str());
        },
        Mode::AngleBatch(angles) => {
            let mut i: usize = 0;
            assert(string_views(angles@.take(0)).map_values(|a: Seq<char>| "a "@ + a) =~= Seq::<Seq<char>>::empty());
            assert(string_views(seq@) =~= s4 + string_views(angles@.take(0)).map_values(|a: Seq<char>| "a "@ + a));
            while i < angles.len()
                invariant
                    i <= angles.len(),
                    string_views(seq@) == s4 + string_views(angles@.take(i as int)).map_values(
                        |a: Seq<char>| "a "@ + a,
                    ),
                decreases angles.len() - i,
            {
                let line = concat("a ", angles[i].as_str());
                push_line(seq, line.as_str());
                i = i + 1;
                assert(string_views(angles@.take(i as int)).map_values(|a: Seq<char>| "a "@ + a)
                    =~= string_views(angles@.take(i as int - 1)).map_values(
                    |a: Seq<char>| "a "@ + a,
                ).push("a "@ + angles@[i as int - 1]@));
                assert(string_views(seq@) =~= s4 + string_views(angles@.take(i as int)).map_values(
                    |a: Seq<char>| "a "@ + a,
                ));
            }
            assert(angles@.take(angles.len() as int) =~= angles@);
        },
        Mode::AngleRange(st, en, sp) => {
            let l1 = concat("aseq ", st.as_str());
            let l2 = concat(l1.as_str(), " ");
            let l3 = concat(l2.as_str(), en.as_str());
            let l4 = concat(l3.as_str(), " ");
            let l5 = concat(l4.as_str(), sp.as_str());
            push_line(seq, l5.as_str());
        },
    }
    assert(string_views(seq@) =~= s4 + mode_lines(*mode));
}

impl XfoilRunner {
    /// The path of the Xfoil program.
    pub fn xfoil_path(&self) -> (s: &str)
        ensures
            s@ == self.program(),
    {
        self.xfoil_path.as_str()
    }

    /// The polar file Xfoil writes its results to, if any.
    pub fn polar(&self) -> (r: Option<String>)
        ensures
            opt_view(r) == self.polar_file(),
    {
        copy_opt(&self.polar)
    }

    /// Whether Xfoil has to be run: not when the polar file already exists, whose
    /// results are then taken as they are.
    pub fn needs_run(&self, polar_exists: bool) -> (b: bool)
        ensures
            b == !(self.polar_file() is Some && polar_exists),
    {
        !(self.polar.is_some() && polar_exists)
    }

    /// The text written to Xfoil's standard input: the commands, one per line.
    pub fn input_text(&self) -> (s: String)
        ensures
            s@ == joined(self.commands(), "\n"@),
    {
        join_strings(self.command_sequence.as_slice(), "\n")
    }
}

/// The number of lines in the header of an Xfoil polar file.
pub const POLAR_HEADER_LINES: usize = 13;

/// The names of the columns of an Xfoil polar table, in order.
pub open spec fn polar_headers() -> Seq<Seq<char>> {
    seq!["alpha"@, "CL"@, "CD"@, "CDp"@, "CM"@, "Top_Xtr"@, "Bot_Xtr"@]
}

/// The names of the columns of an Xfoil polar table, in order.
pub fn polar_column_names() -> (v: Vec<String>)
    ensures
        string_views(v@) == polar_headers(),
{
    let mut v: Vec<String> = Vec::new();
    push_line(&mut v, "alpha");
    push_line(&mut v, "CL");
    push_line(&mut v, "CD");
    push_line(&mut v, "CDp");
    push_line(&mut v, "CM");
    push_line(&mut v, "Top_Xtr");
    push_line(&mut v, "Bot_Xtr");
    v
}

/// The words of the data rows of a polar file: the lines after the first twelve.
pub open spec fn polar_rows(lines: Seq<Seq<char>>) -> Seq<Seq<Seq<char>>> {
    if lines.len() <= POLAR_HEADER_LINES - 1 {
        Seq::<Seq<Seq<char>>>::empty()
    } else {
        lines.skip(POLAR_HEADER_LINES - 1).map_values(|l: Seq<char>| words(l))
    }
}

/// Column `k` of the table: the `k`-th word of each data row that has one.
pub open spec fn polar_column(rows: Seq<Seq<Seq<char>>>, k: int) -> Seq<Seq<char>>
    decreases rows.len(),
{
    if rows.len() == 0 {
        Seq::<Seq<char>>::empty()
    } else {
        let c = polar_column(rows.drop_last(), k);
        if k < rows.last().len() {
            c.push(rows.last()[k])
        } else {
            c
        }
    }
}

fn polar_column_of(lines: &Vec<String>, k: usize) -> (col: Vec<String>)
    ensures
        string_views(col@) == polar_column(polar_rows(string_views(lines@)), k as int),
{
    let ghost rows = polar_rows(string_views(lines@));
    let mut col: Vec<String> = Vec::new();
    if lines.len() <= POLAR_HEADER_LINES - 1 {
        assert(string_views(col@) =~= Seq::<Seq<char>>::empty());
        return col;
    }
    let start: usize = POLAR_HEADER_LINES - 1;
    let mut i: usize = start;
    assert(rows.take(0) =~= Seq::<Seq<Seq<char>>>::empty());
    assert(string_views(col@) =~= Seq::<Seq<char>>::empty());
    while i < lines.len()
        invariant
            start == POLAR_HEADER_LINES - 1,
            start <= i <= lines.len(),
            rows == polar_rows(string_views(lines@)),
            rows.len() == lines.len() - start,
            string_views(col@) == polar_column(rows.take(i - start), k as int),
        decreases lines.len() - i,
    {
        let ghost pre = rows.take(i - start);
        let ghost cur = rows.take(i - start + 1);
        assert(cur.drop_last() =~= pre);
        let lc = chars_of(lines[i].as_str());
        let ws = words_of(&lc);
        assert(cur.last() == words(lines@[i as int]@));
        if k < ws.len() {
            col.push(string_of(&ws[k]));
            assert(views(ws@)[k as int] == ws@[k as int]@);
            assert(string_views(col@) =~= polar_column(pre, k as int).push(views(ws@)[k as int]));
        }
        i = i + 1;
    }
    assert(rows.take(lines.len() - start) =~= rows);
    col
}

/// The seven columns of a polar file's table, as text: after the header, each
/// line's white-space-separated values go to the columns in order, as far as there
/// are values and columns.
pub fn polar_columns(lines: &Vec<String>) -> (cols: Vec<Vec<String>>)
    ensures
        cols.len() == 7,
        forall|k: int| 0 <= k < 7 ==> string_views(#[trigger] cols@[k]@) == polar_column(
            polar_rows(string_views(lines@)),
            k,
        ),
{
    let mut cols: Vec<Vec<String>> = Vec::new();
    let mut k: usize = 0;
    while k < 7
        invariant
            k <= 7,
            cols.len() == k,
            forall|j: int| 0 <= j < k ==> string_views(#[trigger] cols@[j]@) == polar_column(
                polar_rows(string_views(lines@)),
                j,
            ),
        decreases 7 - k,
    {
        cols.push(polar_column_of(lines, k));
        k = k + 1;
    }
    cols
}

/// A number written with at least two digits, as `{:02}` writes it.
pub open spec fn two_digits(t: nat) -> Seq<char> {
    if t < 10 { seq!['0'] + decimal(t) } else { decimal(t) }
}

/// The codes for thickness values `thick` (zero left out) after the prefix `head`.
pub open spec fn thickness_codes(head: Seq<char>, thick: Seq<u8>) -> Seq<Seq<char>>
    decreases thick.len(),
{
    if thick.len() == 0 {
        Seq::<Seq<char>>::empty()
    } else {
        let r = thickness_codes(head, thick.drop_last());
        if thick.last() != 0 { r.push(head + two_digits(thick.last() as nat)) } else { r }
    }
}

/// The codes with camber `m` and the positions `pos`.
pub open spec fn position_codes(m: u8, pos: Seq<u8>, thick: Seq<u8>) -> Seq<Seq<char>>
    decreases pos.len(),
{
    if pos.len() == 0 {
        Seq::<Seq<char>>::empty()
    } else {
        position_codes(m, pos.drop_last(), thick) + thickness_codes(
            decimal(m as nat) + decimal(pos.last() as nat),
            thick,
        )
    }
}

/// All NACA 4-digit codes of the given parameters, repeats included: a zero camber
/// gives the symmetric codes `00tt`, any other camber `m` gives `m p tt` for each
/// position `p`; a zero thickness gives no code.
pub open spec fn naca_candidates(camber: Seq<u8>, pos: Seq<u8>, thick: Seq<u8>) -> Seq<Seq<char>>
    decreases camber.len(),
{
    if camber.len() == 0 {
        Seq::<Seq<char>>::empty()
    } else {
        let m = camber.last();
        naca_candidates(camber.drop_last(), pos, thick) + if m == 0 {
            thickness_codes("00"@, thick)
        } else {
            position_codes(m, pos, thick)
        }
    }
}

fn push_thickness_codes(out: &mut Vec<String>, head: &Vec<char>, thick: &Vec<u8>)
    ensures
        string_views(final(out)@) == string_views(old(out)@) + thickness_codes(head@, thick@),
{
    let ghost start = string_views(out@);
    let mut k: usize = 0;
    assert(thickness_codes(head@, thick@.take(0)) =~= Seq::<Seq<char>>::empty());
    assert(string_views(out@) =~= start + thickness_codes(head@, thick@.take(0)));
    while k < thick.len()
        invariant
            k <= thick.len(),
            string_views(out@) == start + thickness_codes(head@, thick@.take(k as int)),
        decreases thick.len() - k,
    {
        assert(thick@.take(k as int + 1).drop_last() =~= thick@.take(k as int));
        assert(thick@.take(k as int + 1).last() == thick@[k as int]);
        let t = thick[k];
        if t != 0 {
            let mut v: Vec<char> = Vec::new();
            extend_chars(&mut v, head);
            if t < 10 {
                v.push('0');
            }
            push_decimal(&mut v, t as u64);
            let ghost before = string_views(out@);
            out.push(string_of(&v));
            assert(v@ =~= head@ + two_digits(t as nat));
            assert(string_views(out@) =~= before.push(v@));
        }
        k = k + 1;
        assert(string_views(out@) =~= start + thickness_codes(head@, thick@.take(k as int)));
    }
    assert(thick@.take(thick.len() as int) =~= thick@);
}

/// The 4-digit NACA code of camber `m` (percent of chord), camber position `p` (tenths
/// of chord) and thickness `t` (percent of chord): `m`, `p`, then `t` in two digits.
pub open spec fn cambered_code(m: u8, p: u8, t: u8) -> Seq<char> {
    decimal(m as nat) + decimal(p as nat) + two_digits(t as nat)
}

/// The code of a symmetric profile (no camber) of thickness `t`: `00` and `t` in two
/// digits.
pub open spec fn symmetric_code(t: u8) -> Seq<char> {
    "00"@ + two_digits(t as nat)
}

/// `x` is a code the parameters ask for: a non-zero camber with any position and a
/// non-zero thickness, or a zero camber with a non-zero thickness.
pub open spec fn asked_code(camber: Seq<u8>, pos: Seq<u8>, thick: Seq<u8>, x: Seq<char>) -> bool {
    ||| exists|i: int, j: int, k: int|
        0 <= i < camber.len() && 0 <= j < pos.len() && 0 <= k < thick.len() && camber[i] != 0 && thick[k] != 0
            && x == #[trigger] cambered_code(camber[i], pos[j], thick[k])
    ||| exists|i: int, k: int|
        #![trigger camber[i], thick[k]]
        0 <= i < camber.len() && 0 <= k < thick.len() && camber[i] == 0 && thick[k] != 0 && x == symmetric_code(thick[k])
}

proof fn lemma_thickness_codes_members(head: Seq<char>, thick: Seq<u8>, x: Seq<char>)
    ensures
        thickness_codes(head, thick).contains(x) <==> exists|k: int|
            0 <= k < thick.len() && thick[k] != 0 && x == head + two_digits(#[trigger] thick[k] as nat),
    decreases thick.len(),
{
    if thick.len() > 0 {
        let d = thick.drop_last();
        lemma_thickness_codes_members(head, d, x);
        let r = thickness_codes(head, d);
        let last = thick.last();
        if thickness_codes(head, thick).contains(x) {
            if last != 0 && x == head + two_digits(last as nat) {
                assert(thick[thick.len() - 1] == last);
            } else {
                if last != 0 {
                    let q = choose|q: int| 0 <= q < r.push(head + two_digits(last as nat)).len()
                        && r.push(head + two_digits(last as nat))[q] == x;
                    assert(q < r.len());
                    assert(r[q] == x);
                }
                let k = choose|k: int| 0 <= k < d.len() && d[k] != 0 && x == head + two_digits(#[trigger] d[k] as nat);
                assert(thick[k] == d[k]);
            }
        }
        if exists|k: int| 0 <= k < thick.len() && thick[k] != 0 && x == head + two_digits(#[trigger] thick[k] as nat) {
            let k = choose|k: int| 0 <= k < thick.len() && thick[k] != 0 && x == head + two_digits(#[trigger] thick[k] as nat);
            if k == thick.len() - 1 {
                assert(r.push(head + two_digits(last as nat))[r.len() as int] == x);
            } else {
                assert(d[k] == thick[k]);
                assert(r.contains(x));
                if last != 0 {
                    let q = choose|q: int| 0 <= q < r.len() && r[q] == x;
                    assert(r.push(head + two_digits(last as nat))[q] == x);
                }
            }
        }
    }
}

proof fn lemma_position_codes_members(m: u8, pos: Seq<u8>, thick: Seq<u8>, x: Seq<char>)
    ensures
        position_codes(m, pos, thick).contains(x) <==> exists|j: int, k: int|
            0 <= j < pos.len() && 0 <= k < thick.len() && thick[k] != 0 && x == #[trigger] cambered_code(
                m,
                pos[j],
                thick[k],
            ),
    decreases pos.len(),
{
    if pos.len() > 0 {
        let d = pos.drop_last();
        let p = pos.last();
        let head = decimal(m as nat) + decimal(p as nat);
        lemma_position_codes_members(m, d, thick, x);
        lemma_thickness_codes_members(head, thick, x);
        crate::text::lemma_add_contains(position_codes(m, d, thick), thickness_codes(head, thick), x);
        if position_codes(m, pos, thick).contains(x) {
            if position_codes(m, d, thick).contains(x) {
                let (j, k) = choose|j: int, k: int|
                    0 <= j < d.len() && 0 <= k < thick.len() && thick[k] != 0 && x == #[trigger] cambered_code(m, d[j], thick[k]);
                assert(pos[j] == d[j]);
                assert(x == cambered_code(m, pos[j], thick[k]));
            } else {
                let k = choose|k: int| 0 <= k < thick.len() && thick[k] != 0 && x == head + two_digits(#[trigger] thick[k] as nat);
                assert(pos[pos.len() - 1] == p);
                assert(x == cambered_code(m, pos[pos.len() - 1], thick[k]));
            }
        }
        if exists|j: int, k: int|
            0 <= j < pos.len() && 0 <= k < thick.len() && thick[k] != 0 && x == #[trigger] cambered_code(m, pos[j], thick[k]) {
            let (j, k) = choose|j: int, k: int|
                0 <= j < pos.len() && 0 <= k < thick.len() && thick[k] != 0 && x == #[trigger] cambered_code(m, pos[j], thick[k]);
            if j == pos.len() - 1 {
                assert(x == head + two_digits(thick[k] as nat));
            } else {
                assert(d[j] == pos[j]);
                assert(x == cambered_code(m, d[j], thick[k]));
            }
        }
    }
}

/// The NACA search asks for exactly the codes of its parameters: every non-zero
/// camber combined with every camber position and every non-zero thickness, and the
/// symmetric code of every non-zero thickness when a camber of zero is listed.
pub proof fn lemma_naca_candidates_members(camber: Seq<u8>, pos: Seq<u8>, thick: Seq<u8>, x: Seq<char>)
    ensures
        naca_candidates(camber, pos, thick).contains(x) <==> asked_code(camber, pos, thick, x),
    decreases camber.len(),
{
    if camber.len() > 0 {
        let d = camber.drop_last();
        let m = camber.last();
        lemma_naca_candidates_members(d, pos, thick, x);
        let rest = if m == 0 { thickness_codes("00"@, thick) } else { position_codes(m, pos, thick) };
        crate::text::lemma_add_contains(naca_candidates(d, pos, thick), rest, x);
        lemma_thickness_codes_members("00"@, thick, x);
        lemma_position_codes_members(m, pos, thick, x);
        assert(camber[camber.len() - 1] == m);
        if naca_candidates(camber, pos, thick).contains(x) {
            if naca_candidates(d, pos, thick).contains(x) {
                if exists|i: int, j: int, k: int|
                    0 <= i < d.len() && 0 <= j < pos.len() && 0 <= k < thick.len() && d[i] != 0 && thick[k] != 0
                        && x == #[trigger] cambered_code(d[i], pos[j], thick[k]) {
                    let (i, j, k) = choose|i: int, j: int, k: int|
                        0 <= i < d.len() && 0 <= j < pos.len() && 0 <= k < thick.len() && d[i] != 0 && thick[k] != 0
                            && x == #[trigger] cambered_code(d[i], pos[j], thick[k]);
                    assert(camber[i] == d[i]);
                    assert(x == cambered_code(camber[i], pos[j], thick[k]));
                } else {
                    let (i, k) = choose|i: int, k: int|
                        #![trigger d[i], thick[k]]
                        0 <= i < d.len() && 0 <= k < thick.len() && d[i] == 0 && thick[k] != 0 && x == symmetric_code(thick[k]);
                    assert(camber[i] == d[i]);
                    assert(camber[i] == 0 && thick[k] != 0 && x == symmetric_code(thick[k]));
                }
            } else if m == 0 {
                let k = choose|k: int| 0 <= k < thick.len() && thick[k] != 0 && x == "00"@ + two_digits(#[trigger] thick[k] as nat);
                let i = camber.len() - 1;
                assert(camber[i] == 0 && thick[k] != 0 && x == symmetric_code(thick[k]));
            } else {
                let (j, k) = choose|j: int, k: int|
                    0 <= j < pos.len() && 0 <= k < thick.len() && thick[k] != 0 && x == #[trigger] cambered_code(m, pos[j], thick[k]);
                let i = camber.len() - 1;
                assert(x == cambered_code(camber[i], pos[j], thick[k]));
            }
        }
        if asked_code(camber, pos, thick, x) {
            if exists|i: int, j: int, k: int|
                0 <= i < camber.len() && 0 <= j < pos.len() && 0 <= k < thick.len() && camber[i] != 0 && thick[k] != 0
                    && x == #[trigger] cambered_code(camber[i], pos[j], thick[k]) {
                let (i, j, k) = choose|i: int, j: int, k: int|
                    0 <= i < camber.len() && 0 <= j < pos.len() && 0 <= k < thick.len() && camber[i] != 0 && thick[k] != 0
                        && x == #[trigger] cambered_code(camber[i], pos[j], thick[k]);
                if i < d.len() {
                    assert(d[i] == camber[i]);
                    assert(x == cambered_code(d[i], pos[j], thick[k]));
                } else {
                    assert(x == cambered_code(m, pos[j], thick[k]));
                }
            } else {
                let (i, k) = choose|i: int, k: int|
                    #![trigger camber[i], thick[k]]
                    0 <= i < camber.len() && 0 <= k < thick.len() && camber[i] == 0 && thick[k] != 0 && x == symmetric_code(thick[k]);
                if i < d.len() {
                    assert(d[i] == camber[i]);
                    assert(d[i] == 0 && thick[k] != 0);
                } else {
                    assert(x == "00"@ + two_digits(thick[k] as nat));
                }
            }
        }
    }
}

/// The set of NACA codes of the given parameters, held as a list without repeats in
/// the order first generated.
pub fn generate_naca_codes(camber_percent: &Vec<u8>, camber_pos: &Vec<u8>, thickness_percent: &Vec<u8>) -> (r: Vec<String>)
    ensures
        string_views(r@) == crate::citations::first_keys(
            naca_candidates(camber_percent@, camber_pos@, thickness_percent@),
        ),
        forall|i: int, j: int| 0 <= i < j < r.len() ==> (#[trigger] r@[i])@ != (#[trigger] r@[j])@,
        forall|x: Seq<char>|
            string_views(r@).contains(x) <==> naca_candidates(camber_percent@, camber_pos@, thickness_percent@).contains(x),
        forall|i: int, j: int, k: int|
            0 <= i < camber_percent.len() && 0 <= j < camber_pos.len() && 0 <= k < thickness_percent.len()
                && camber_percent@[i] != 0 && thickness_percent@[k] != 0 ==> string_views(r@).contains(
                #[trigger] cambered_code(camber_percent@[i], camber_pos@[j], thickness_percent@[k]),
            ),
        forall|i: int, k: int|
            #![trigger camber_percent@[i], thickness_percent@[k]]
            0 <= i < camber_percent.len() && 0 <= k < thickness_percent.len() && camber_percent@[i] == 0
                && thickness_percent@[k] != 0 ==> string_views(r@).contains(symmetric_code(thickness_percent@[k])),
        forall|x: Seq<char>| #[trigger] string_views(r@).contains(x) ==> asked_code(
            camber_percent@,
            camber_pos@,
            thickness_percent@,
            x,
        ),
{
    let mut all: Vec<String> = Vec::new();
    let mut i: usize = 0;
    assert(naca_candidates(camber_percent@.take(0), camber_pos@, thickness_percent@) =~= Seq::<Seq<char>>::empty());
    assert(string_views(all@) =~= Seq::<Seq<char>>::empty());
    while i < camber_percent.len()
        invariant
            i <= camber_percent.len(),
            string_views(all@) == naca_candidates(camber_percent@.take(i as int), camber_pos@, thickness_percent@),
        decreases camber_percent.len() - i,
    {
        let ghost cam = camber_percent@.take(i as int + 1);
        assert(cam.drop_last() =~= camber_percent@.take(i as int));
        assert(cam.last() == camber_percent@[i as int]);
        let m = camber_percent[i];
        if m == 0 {
            let head = chars_of("00");
            proof {
                reveal_strlit("00");
            }
            push_thickness_codes(&mut all, &head, thickness_percent);
        } else {
            let ghost before = string_views(all@);
            let mut j: usize = 0;
            assert(position_codes(m, camber_pos@.take(0), thickness_percent@) =~= Seq::<Seq<char>>::empty());
            assert(string_views(all@) =~= before + position_codes(m, camber_pos@.take(0), thickness_percent@));
            while j < camber_pos.len()
                invariant
                    j <= camber_pos.len(),
                    string_views(all@) == before + position_codes(m, camber_pos@.take(j as int), thickness_percent@),
                decreases camber_pos.len() - j,
            {
                assert(camber_pos@.take(j as int + 1).drop_last() =~= camber_pos@.take(j as int));
                assert(camber_pos@.take(j as int + 1).last() == camber_pos@[j as int]);
                let mut head: Vec<char> = Vec::new();
                push_decimal(&mut head, m as u64);
                push_decimal(&mut head, camber_pos[j] as u64);
                push_thickness_codes(&mut all, &head, thickness_percent);
                j = j + 1;
                assert(string_views(all@) =~= before + position_codes(m, camber_pos@.take(j as int), thickness_percent@));
            }
            assert(camber_pos@.take(camber_pos.len() as int) =~= camber_pos@);
        }
        i = i + 1;
        assert(string_views(all@) =~= naca_candidates(camber_percent@.take(i as int), camber_pos@, thickness_percent@));
    }
    assert(camber_percent@.take(camber_percent.len() as int) =~= camber_percent@);
    let r = distinct_strings(&all);
    proof {
        let (cp, ps, th) = (camber_percent@, camber_pos@, thickness_percent@);
        assert forall|x: Seq<char>| naca_candidates(cp, ps, th).contains(x) <==> asked_code(cp, ps, th, x) by {
            lemma_naca_candidates_members(cp, ps, th, x);
        }
        assert forall|i: int, j: int, k: int|
            0 <= i < cp.len() && 0 <= j < ps.len() && 0 <= k < th.len() && cp[i] != 0 && th[k] != 0 implies
            naca_candidates(cp, ps, th).contains(#[trigger] cambered_code(cp[i], ps[j], th[k])) by {
            assert(asked_code(cp, ps, th, cambered_code(cp[i], ps[j], th[k])));
        }
        assert forall|i: int, k: int|
            #![trigger cp[i], th[k]]
            0 <= i < cp.len() && 0 <= k < th.len() && cp[i] == 0 && th[k] != 0 implies
            naca_candidates(cp, ps, th).contains(symmetric_code(th[k])) by {
            assert(asked_code(cp, ps, th, symmetric_code(th[k])));
        }
        crate::citations::lemma_first_keys_distinct(string_views(all@));
        assert forall|i: int, j: int| 0 <= i < j < r.len() implies (#[trigger] r@[i])@ != (#[trigger] r@[j])@ by {
            assert(string_views(r@)[i] == r@[i]@);
            assert(string_views(r@)[j] == r@[j]@);
        }
    }
    r
}

/// The strings of `v`, each once, in order of first appearance.
fn distinct_strings(v: &Vec<String>) -> (r: Vec<String>)
    ensures
        string_views(r@) == crate::citations::first_keys(string_views(v@)),
{
    let mut cs: Vec<Vec<char>> = Vec::new();
    let mut k: usize = 0;
    while k < v.len()
        invariant
            k <= v.len(),
            cs.len() == k,
            views(cs@) == string_views(v@).take(k as int),
        decreases v.len() - k,
    {
        let ghost before = views(cs@);
        cs.push(chars_of(v[k].as_str()));
        assert(views(cs@) =~= before.push(v@[k as int]@));
        assert(string_views(v@).take(k as int + 1) =~= string_views(v@).take(k as int).push(v@[k as int]@));
        k = k + 1;
    }
    assert(string_views(v@).take(v.len() as int) =~= string_views(v@));
    let d = crate::citations::first_keys_exec(&cs);
    let mut r: Vec<String> = Vec::new();
    let mut j: usize = 0;
    while j < d.len()
        invariant
            j <= d.len(),
            r.len() == j,
            string_views(r@) == views(d@).take(j as int),
        decreases d.len() - j,
    {
        let ghost before = string_views(r@);
        r.push(string_of(&d[j]));
        assert(string_views(r@) =~= before.push(d@[j as int]@));
        assert(views(d@).take(j as int + 1) =~= views(d@).take(j as int).push(d@[j as int]@));
        j = j + 1;
    }
    assert(views(d@).take(d.len() as int) =~= views(d@));
    r
}

} // verus!
