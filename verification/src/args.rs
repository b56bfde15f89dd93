//! The command line.

use vstd::prelude::*;
use vstd::utf8::encode_utf8;

use crate::text::{
    all_white, bare, before, chars_of, decimal, eq_chars, find_char, lemma_ascii_white,
    lemma_decimal_reads_back, lemma_ends_are_trimmed, lemma_next_char, lemma_number_is_read,
    lemma_text_is_cut, next_char, number_in, parse_number, push_decimal, string_of, trim, trimmed,
};

verus! {

/// What the program is told to do.
pub struct Args {
    pub listen: String,
    pub display: Option<String>,
    pub geometry: (u32, u32),
    pub depth: u32,
    /// Largest size that clients may ask for.
    pub max_geometry: (u32, u32),
    /// Extra hosts accepted in an `Origin`.
    pub allow_origin: Vec<String>,
    /// Which X server to start.
    pub xserver: String,
    pub password: Option<String>,
    pub no_password: bool,
    pub view_only: bool,
    pub max_fps: u32,
    pub verbose: bool,
    pub command: Vec<String>,
}

/// What the program is told to do, text as sequences.
#[verifier::ext_equal]
pub struct ArgsView {
    pub listen: Seq<char>,
    pub display: Option<Seq<char>>,
    pub geometry: (u32, u32),
    pub depth: u32,
    pub max_geometry: (u32, u32),
    pub allow_origin: Seq<Seq<char>>,
    pub xserver: Seq<char>,
    pub password: Option<Seq<char>>,
    pub no_password: bool,
    pub view_only: bool,
    pub max_fps: u32,
    pub verbose: bool,
    pub command: Seq<Seq<char>>,
}

/// Text that may be there.
pub open spec fn option_view(s: Option<String>) -> Option<Seq<char>> {
    match s {
        Some(t) => Some(t@),
        None => None,
    }
}

/// Texts as sequences.
pub open spec fn strings_view(v: Seq<String>) -> Seq<Seq<char>> {
    v.map_values(|s: String| s@)
}

impl View for Args {
    type V = ArgsView;

    open spec fn view(&self) -> ArgsView {
        ArgsView {
            listen: self.listen@,
            display: option_view(self.display),
            geometry: self.geometry,
            depth: self.depth,
            max_geometry: self.max_geometry,
            allow_origin: strings_view(self.allow_origin@),
            xserver: self.xserver@,
            password: option_view(self.password),
            no_password: self.no_password,
            view_only: self.view_only,
            max_fps: self.max_fps,
            verbose: self.verbose,
            command: strings_view(self.command@),
        }
    }
}

impl ArgsView {
    /// What holds where nothing is said.
    pub open spec fn defaults() -> ArgsView {
        ArgsView {
            listen: "0.0.0.0:6080"@,
            display: None,
            geometry: (1440, 900),
            depth: 24,
            max_geometry: (1920, 1200),
            allow_origin: seq![],
            xserver: "Xvfb"@,
            password: None,
            no_password: false,
            view_only: false,
            max_fps: 30,
            verbose: false,
            command: seq![],
        }
    }
}

impl Default for Args {
    fn default() -> (a: Self)
        ensures
            a@ == ArgsView::defaults(),
    {
        let a = Args {
            listen: "0.0.0.0:6080".to_owned(),
            display: None,
            geometry: (1440, 900),
            depth: 24,
            max_geometry: (1920, 1200),
            allow_origin: Vec::new(),
            xserver: "Xvfb".to_owned(),
            password: None,
            no_password: false,
            view_only: false,
            max_fps: 30,
            verbose: false,
            command: Vec::new(),
        };
        assert(a@.allow_origin =~= seq![]);
        assert(a@.command =~= seq![]);
        a
    }
}

/// What is wrong with the command line.
#[derive(Debug)]
pub enum ArgError {
    /// An option is the last word and needs another.
    MissingValue(String),
    /// A size without an "x".
    BadGeometry(String),
    BadWidth(String),
    BadHeight(String),
    GeometryOutOfRange(String),
    /// An option needs a number.
    NotANumber(String),
    UnsupportedDepth(u32),
    EmptyPasswordFile(String),
    UnknownOption(String),
    ContradictingPasswords,
    BadPort(String),
    /// An address without a port.
    NeedsPort(String),
}

/// What is wrong, text as sequences.
pub enum ArgErrorView {
    MissingValue(Seq<char>),
    BadGeometry(Seq<char>),
    BadWidth(Seq<char>),
    BadHeight(Seq<char>),
    GeometryOutOfRange(Seq<char>),
    NotANumber(Seq<char>),
    UnsupportedDepth(u32),
    EmptyPasswordFile(Seq<char>),
    UnknownOption(Seq<char>),
    ContradictingPasswords,
    BadPort(Seq<char>),
    NeedsPort(Seq<char>),
}

impl View for ArgError {
    type V = ArgErrorView;

    open spec fn view(&self) -> ArgErrorView {
        match *self {
            ArgError::MissingValue(s) => ArgErrorView::MissingValue(s@),
            ArgError::BadGeometry(s) => ArgErrorView::BadGeometry(s@),
            ArgError::BadWidth(s) => ArgErrorView::BadWidth(s@),
            ArgError::BadHeight(s) => ArgErrorView::BadHeight(s@),
            ArgError::GeometryOutOfRange(s) => ArgErrorView::GeometryOutOfRange(s@),
            ArgError::NotANumber(s) => ArgErrorView::NotANumber(s@),
            ArgError::UnsupportedDepth(n) => ArgErrorView::UnsupportedDepth(n),
            ArgError::EmptyPasswordFile(s) => ArgErrorView::EmptyPasswordFile(s@),
            ArgError::UnknownOption(s) => ArgErrorView::UnknownOption(s@),
            ArgError::ContradictingPasswords => ArgErrorView::ContradictingPasswords,
            ArgError::BadPort(s) => ArgErrorView::BadPort(s@),
            ArgError::NeedsPort(s) => ArgErrorView::NeedsPort(s@),
        }
    }
}

/// Position of the "x" or "X" of a size, or the length.
pub open spec fn cross_at(s: Seq<char>) -> int {
    let (a, b) = (next_char(s, 'x', 0), next_char(s, 'X', 0));
    if a < b {
        a
    } else {
        b
    }
}

pub open spec fn in_range(n: int) -> bool {
    16 <= n <= 16384
}

/// The size that a text stands for.
pub open spec fn geometry_of(s: Seq<char>) -> Result<(u32, u32), ArgErrorView> {
    let k = cross_at(s);
    let w = number_in(trimmed(s.take(k)), u32::MAX as int);
    let h = number_in(trimmed(s.skip(k + 1)), u32::MAX as int);
    if k >= s.len() {
        Err(ArgErrorView::BadGeometry(s))
    } else if w is None {
        Err(ArgErrorView::BadWidth(s))
    } else if h is None {
        Err(ArgErrorView::BadHeight(s))
    } else if !in_range(w->0) || !in_range(h->0) {
        Err(ArgErrorView::GeometryOutOfRange(s))
    } else {
        Ok((w->0 as u32, h->0 as u32))
    }
}

/// A result, its error as a view.
pub open spec fn result_view<T>(r: Result<T, ArgError>) -> Result<T, ArgErrorView> {
    match r {
        Ok(v) => Ok(v),
        Err(e) => Err(e@),
    }
}

pub fn parse_geometry(spec: &str) -> (r: Result<(u32, u32), ArgError>)
    ensures
        result_view(r) == geometry_of(spec@),
{
    let chars: Vec<char> = chars_of(spec);
    let s: &[char] = chars.as_slice();
    let n: usize = s.len();
    let (a, b): (usize, usize) = (find_char(s, 'x'), find_char(s, 'X'));
    let k: usize = if a < b {
        a
    } else {
        b
    };
    if k >= n {
        return Err(ArgError::BadGeometry(spec.to_owned()));
    }
    assert(s@.subrange(0, k as int) =~= s@.take(k as int));
    assert(s@.subrange(k + 1, n as int) =~= s@.skip(k + 1));
    let w: u32 = match parse_number(trim(&s[0..k]), u32::MAX) {
        Some(w) => w,
        None => {
            return Err(ArgError::BadWidth(spec.to_owned()));
        },
    };
    let h: u32 = match parse_number(trim(&s[k + 1..n]), u32::MAX) {
        Some(h) => h,
        None => {
            return Err(ArgError::BadHeight(spec.to_owned()));
        },
    };
    if w < 16 || w > 16384 || h < 16 || h > 16384 {
        return Err(ArgError::GeometryOutOfRange(spec.to_owned()));
    }
    Ok((w, h))
}

/// Where to listen: a bare port, or one behind a colon, is on every address.
pub open spec fn address_of(s: Seq<char>) -> Result<Seq<char>, ArgErrorView> {
    let after_colon = number_in(s.skip(1), 65535);
    if number_in(s, 65535) is Some {
        Ok("0.0.0.0:"@ + decimal(number_in(s, 65535)->0 as nat))
    } else if s.len() > 0 && s[0] == ':' {
        if after_colon is Some {
            Ok("0.0.0.0:"@ + decimal(after_colon->0 as nat))
        } else {
            Err(ArgErrorView::BadPort(s))
        }
    } else if !s.contains(':') {
        Err(ArgErrorView::NeedsPort(s))
    } else {
        Ok(s)
    }
}

fn any_address(port: u32) -> (s: String)
    ensures
        s@ == "0.0.0.0:"@ + decimal(port as nat),
{
    let mut s: String = "0.0.0.0:".to_owned();
    push_decimal(&mut s, port as u64);
    s
}

pub fn bind_addr(spec: &str) -> (r: Result<String, ArgError>)
    ensures
        match r {
            Ok(s) => address_of(spec@) == Ok::<Seq<char>, ArgErrorView>(s@),
            Err(e) => address_of(spec@) == Err::<Seq<char>, ArgErrorView>(e@),
        },
{
    let chars: Vec<char> = chars_of(spec);
    let s: &[char] = chars.as_slice();
    let n: usize = s.len();
    if let Some(port) = parse_number(s, 65535) {
        return Ok(any_address(port));
    }
    if n > 0 && s[0] == ':' {
        assert(s@.subrange(1, n as int) =~= s@.skip(1));
        return match parse_number(&s[1..n], 65535) {
            Some(port) => Ok(any_address(port)),
            None => Err(ArgError::BadPort(spec.to_owned())),
        };
    }
    if find_char(s, ':') >= n {
        return Err(ArgError::NeedsPort(spec.to_owned()));
    }
    Ok(spec.to_owned())
}

/// What a word of the command line is.
#[derive(Clone, Copy, Debug, PartialEq, Eq, Structural)]
pub enum Opt {
    Help,
    Version,
    Listen,
    Display,
    Geometry,
    Depth,
    MaxGeometry,
    AllowOrigin,
    XServer,
    Password,
    PasswordFile,
    NoPassword,
    ViewOnly,
    MaxFps,
    Verbose,
    /// The end of the options.
    End,
    Unknown,
    /// The first word of the command to run.
    Word,
}

/// What a word of the command line is.
pub open spec fn option_of(s: Seq<char>) -> Opt {
    if s == "-h"@ || s == "--help"@ {
        Opt::Help
    } else if s == "-V"@ || s == "--version"@ {
        Opt::Version
    } else if s == "-l"@ || s == "--listen"@ {
        Opt::Listen
    } else if s == "-d"@ || s == "--display"@ {
        Opt::Display
    } else if s == "-g"@ || s == "--geometry"@ {
        Opt::Geometry
    } else if s == "--depth"@ {
        Opt::Depth
    } else if s == "--max-geometry"@ {
        Opt::MaxGeometry
    } else if s == "--allow-origin"@ {
        Opt::AllowOrigin
    } else if s == "--xserver"@ {
        Opt::XServer
    } else if s == "-p"@ || s == "--password"@ {
        Opt::Password
    } else if s == "--password-file"@ {
        Opt::PasswordFile
    } else if s == "--no-password"@ {
        Opt::NoPassword
    } else if s == "--view-only"@ {
        Opt::ViewOnly
    } else if s == "--max-fps"@ {
        Opt::MaxFps
    } else if s == "-v"@ || s == "--verbose"@ {
        Opt::Verbose
    } else if s == "--"@ {
        Opt::End
    } else if s.len() > 1 && s[0] == '-' {
        Opt::Unknown
    } else {
        Opt::Word
    }
}

fn is_word(s: &[char], t: &str) -> (b: bool)
    ensures
        b == (s@ == t@),
{
    let v: Vec<char> = chars_of(t);
    eq_chars(s, v.as_slice())
}

fn classify(arg: &str) -> (o: Opt)
    ensures
        o == option_of(arg@),
{
    let chars: Vec<char> = chars_of(arg);
    let s: &[char] = chars.as_slice();
    if is_word(s, "-h") || is_word(s, "--help") {
        Opt::Help
    } else if is_word(s, "-V") || is_word(s, "--version") {
        Opt::Version
    } else if is_word(s, "-l") || is_word(s, "--listen") {
        Opt::Listen
    } else if is_word(s, "-d") || is_word(s, "--display") {
        Opt::Display
    } else if is_word(s, "-g") || is_word(s, "--geometry") {
        Opt::Geometry
    } else if is_word(s, "--depth") {
        Opt::Depth
    } else if is_word(s, "--max-geometry") {
        Opt::MaxGeometry
    } else if is_word(s, "--allow-origin") {
        Opt::AllowOrigin
    } else if is_word(s, "--xserver") {
        Opt::XServer
    } else if is_word(s, "-p") || is_word(s, "--password") {
        Opt::Password
    } else if is_word(s, "--password-file") {
        Opt::PasswordFile
    } else if is_word(s, "--no-password") {
        Opt::NoPassword
    } else if is_word(s, "--view-only") {
        Opt::ViewOnly
    } else if is_word(s, "--max-fps") {
        Opt::MaxFps
    } else if is_word(s, "-v") || is_word(s, "--verbose") {
        Opt::Verbose
    } else if is_word(s, "--") {
        Opt::End
    } else if s.len() > 1 && s[0] == '-' {
        Opt::Unknown
    } else {
        Opt::Word
    }
}

impl Opt {
    /// The name of an option that takes a value.
    pub open spec fn flag(self) -> Option<Seq<char>> {
        match self {
            Opt::Listen => Some("--listen"@),
            Opt::Display => Some("--display"@),
            Opt::Geometry => Some("--geometry"@),
            Opt::Depth => Some("--depth"@),
            Opt::MaxGeometry => Some("--max-geometry"@),
            Opt::AllowOrigin => Some("--allow-origin"@),
            Opt::XServer => Some("--xserver"@),
            Opt::Password => Some("--password"@),
            Opt::PasswordFile => Some("--password-file"@),
            Opt::MaxFps => Some("--max-fps"@),
            _ => None,
        }
    }

    fn flag_name(self) -> (f: Option<&'static str>)
        ensures
            match f {
                Some(n) => self.flag() == Some(n@),
                None => self.flag() is None,
            },
    {
        match self {
            Opt::Listen => Some("--listen"),
            Opt::Display => Some("--display"),
            Opt::Geometry => Some("--geometry"),
            Opt::Depth => Some("--depth"),
            Opt::MaxGeometry => Some("--max-geometry"),
            Opt::AllowOrigin => Some("--allow-origin"),
            Opt::XServer => Some("--xserver"),
            Opt::Password => Some("--password"),
            Opt::PasswordFile => Some("--password-file"),
            Opt::MaxFps => Some("--max-fps"),
            _ => None,
        }
    }
}

/// Arguments with the value of an option, other than a password file, taken in.
pub open spec fn with_value(a: ArgsView, o: Opt, v: Seq<char>) -> Result<ArgsView, ArgErrorView> {
    let n = number_in(v, u32::MAX as int);
    match o {
        Opt::Listen => Ok(ArgsView { listen: v, ..a }),
        Opt::Display => Ok(ArgsView { display: Some(v), ..a }),
        Opt::Geometry => match geometry_of(v) {
            Ok(g) => Ok(ArgsView { geometry: g, ..a }),
            Err(e) => Err(e),
        },
        Opt::MaxGeometry => match geometry_of(v) {
            Ok(g) => Ok(ArgsView { max_geometry: g, ..a }),
            Err(e) => Err(e),
        },
        Opt::Depth => if n is None {
            Err(ArgErrorView::NotANumber("--depth"@))
        } else if n->0 != 16 && n->0 != 24 && n->0 != 30 {
            Err(ArgErrorView::UnsupportedDepth(n->0 as u32))
        } else {
            Ok(ArgsView { depth: n->0 as u32, ..a })
        },
        Opt::AllowOrigin => Ok(ArgsView { allow_origin: a.allow_origin.push(v), ..a }),
        Opt::XServer => Ok(ArgsView { xserver: v, ..a }),
        Opt::Password => Ok(ArgsView { password: Some(v), ..a }),
        Opt::MaxFps => if n is None {
            Err(ArgErrorView::NotANumber("--max-fps"@))
        } else {
            Ok(
                ArgsView {
                    max_fps: if n->0 < 1 {
                        1
                    } else if n->0 > 120 {
                        120
                    } else {
                        n->0 as u32
                    },
                    ..a
                },
            )
        },
        _ => Ok(a),
    }
}

/// Arguments with an option that takes no value taken in.
pub open spec fn with_switch(a: ArgsView, o: Opt) -> ArgsView {
    match o {
        Opt::NoPassword => ArgsView { no_password: true, ..a },
        Opt::ViewOnly => ArgsView { view_only: true, ..a },
        Opt::Verbose => ArgsView { verbose: true, ..a },
        _ => a,
    }
}

/// The password in a file: its first line, without white space around it.
pub open spec fn password_in(text: Seq<char>) -> Seq<char> {
    trimmed(before(text, '\n'))
}

/// What a command line comes to.
pub enum Parsed {
    Run(Args),
    /// Show the help and stop.
    Help,
    /// Show the version and stop.
    Version,
    /// The text of this file is needed to go on.
    NeedFile(String),
}

/// What a command line comes to, text as sequences.
pub enum ParsedView {
    Run(ArgsView),
    Help,
    Version,
    NeedFile(Seq<char>),
    Failed(ArgErrorView),
}

/// A parse, with its error as one of its outcomes.
pub open spec fn parsed_view(r: Result<Parsed, ArgError>) -> ParsedView {
    match r {
        Ok(Parsed::Run(a)) => ParsedView::Run(a@),
        Ok(Parsed::Help) => ParsedView::Help,
        Ok(Parsed::Version) => ParsedView::Version,
        Ok(Parsed::NeedFile(p)) => ParsedView::NeedFile(p@),
        Err(e) => ParsedView::Failed(e@),
    }
}

/// The end of a command line.
pub open spec fn finished(a: ArgsView) -> ParsedView {
    if a.password is Some && a.no_password {
        ParsedView::Failed(ArgErrorView::ContradictingPasswords)
    } else {
        ParsedView::Run(a)
    }
}

/// How words from `i` on go on with some arguments; `files` are the texts of
/// the password files that are named from here on.
pub open spec fn parse_from(
    words: Seq<Seq<char>>,
    i: int,
    files: Seq<Seq<char>>,
    a: ArgsView,
) -> ParsedView
    decreases words.len() - i,
{
    if i >= words.len() {
        finished(a)
    } else {
        let o = option_of(words[i]);
        if o is Help {
            ParsedView::Help
        } else if o is Version {
            ParsedView::Version
        } else if o is Unknown {
            ParsedView::Failed(ArgErrorView::UnknownOption(words[i]))
        } else if o is End {
            finished(ArgsView { command: words.skip(i + 1), ..a })
        } else if o is Word {
            finished(ArgsView { command: words.skip(i), ..a })
        } else if o.flag() is None {
            parse_from(words, i + 1, files, with_switch(a, o))
        } else if i + 1 >= words.len() {
            ParsedView::Failed(ArgErrorView::MissingValue(o.flag()->0))
        } else if o is PasswordFile {
            if files.len() == 0 {
                ParsedView::NeedFile(words[i + 1])
            } else if password_in(files[0]).len() == 0 {
                ParsedView::Failed(ArgErrorView::EmptyPasswordFile(words[i + 1]))
            } else {
                parse_from(
                    words,
                    i + 2,
                    files.skip(1),
                    ArgsView { password: Some(password_in(files[0])), ..a },
                )
            }
        } else {
            match with_value(a, o, words[i + 1]) {
                Ok(b) => parse_from(words, i + 2, files, b),
                Err(e) => ParsedView::Failed(e),
            }
        }
    }
}

fn take_value(a: &mut Args, o: Opt, v: &String) -> (r: Result<(), ArgError>)
    requires
        o.flag() is Some,
    ensures
        match r {
            Ok(()) => with_value(old(a)@, o, v@) == Ok::<ArgsView, ArgErrorView>(final(a)@),
            Err(e) => with_value(old(a)@, o, v@) == Err::<ArgsView, ArgErrorView>(e@),
        },
{
    match o {
        Opt::Listen => {
            a.listen = v.clone();
        },
        Opt::Display => {
            a.display = Some(v.clone());
        },
        Opt::Geometry => {
            a.geometry = parse_geometry(v.as_str())?;
        },
        Opt::MaxGeometry => {
            a.max_geometry = parse_geometry(v.as_str())?;
        },
        Opt::Depth => {
            let chars: Vec<char> = chars_of(v.as_str());
            match parse_number(chars.as_slice(), u32::MAX) {
                None => {
                    return Err(ArgError::NotANumber("--depth".to_owned()));
                },
                Some(d) => {
                    if d != 16 && d != 24 && d != 30 {
                        return Err(ArgError::UnsupportedDepth(d));
                    }
                    a.depth = d;
                },
            }
        },
        Opt::AllowOrigin => {
            let ghost was = strings_view(a.allow_origin@);
            a.allow_origin.push(v.clone());
            assert(strings_view(a.allow_origin@) =~= was.push(v@));
        },
        Opt::XServer => {
            a.xserver = v.clone();
        },
        Opt::Password => {
            a.password = Some(v.clone());
        },
        Opt::MaxFps => {
            let chars: Vec<char> = chars_of(v.as_str());
            match parse_number(chars.as_slice(), u32::MAX) {
                None => {
                    return Err(ArgError::NotANumber("--max-fps".to_owned()));
                },
                Some(n) => {
                    a.max_fps = if n < 1 {
                        1
                    } else if n > 120 {
                        120
                    } else {
                        n
                    };
                },
            }
        },
        _ => {},
    }
    Ok(())
}

fn take_switch(a: &mut Args, o: Opt)
    ensures
        final(a)@ == with_switch(old(a)@, o),
{
    match o {
        Opt::NoPassword => {
            a.no_password = true;
        },
        Opt::ViewOnly => {
            a.view_only = true;
        },
        Opt::Verbose => {
            a.verbose = true;
        },
        _ => {},
    }
}

/// A copy of the words from `i` on.
fn words_from(words: &[String], i: usize) -> (v: Vec<String>)
    requires
        i <= words@.len(),
    ensures
        strings_view(v@) == strings_view(words@).skip(i as int),
{
    let mut v: Vec<String> = Vec::new();
    assert(strings_view(v@) =~= strings_view(words@).subrange(i as int, i as int));
    for k in i..words.len()
        invariant
            i <= k <= words@.len(),
            strings_view(v@) == strings_view(words@).subrange(i as int, k as int),
    {
        let ghost was = strings_view(v@);
        v.push(words[k].clone());
        assert(strings_view(v@) =~= was.push(words@[k as int]@));
        assert(strings_view(v@) =~= strings_view(words@).subrange(i as int, k + 1));
    }
    assert(strings_view(v@) =~= strings_view(words@).skip(i as int));
    v
}

fn finish(a: Args) -> (r: Result<Parsed, ArgError>)
    ensures
        parsed_view(r) == finished(a@),
{
    if a.password.is_some() && a.no_password {
        return Err(ArgError::ContradictingPasswords);
    }
    Ok(Parsed::Run(a))
}

fn first_line(text: &str) -> (s: String)
    ensures
        s@ == password_in(text@),
{
    let chars: Vec<char> = chars_of(text);
    let n: usize = find_char(chars.as_slice(), '\n');
    assert(chars@.subrange(0, n as int) =~= before(chars@, '\n'));
    string_of(trim(&chars.as_slice()[0..n]))
}

/// Read the command line. The texts of password files are given in `files`, in
/// the order in which they are named; where one more is needed, its name is
/// given back.
pub fn parse_args(words: &[String], files: &[String]) -> (r: Result<Parsed, ArgError>)
    ensures
        parsed_view(r) == parse_from(
            strings_view(words@),
            0,
            strings_view(files@),
            ArgsView::defaults(),
        ),
{
    let ghost all = strings_view(words@);
    let ghost texts = strings_view(files@);
    let mut a = Args::default();
    let mut i: usize = 0;
    let mut k: usize = 0;
    let n: usize = words.len();
    assert(texts.skip(0) =~= texts);
    while i < n
        invariant
            n == words@.len(),
            i <= n,
            k <= files@.len(),
            all == strings_view(words@),
            texts == strings_view(files@),
            parse_from(all, 0, texts, ArgsView::defaults()) == parse_from(
                all,
                i as int,
                texts.skip(k as int),
                a@,
            ),
        decreases n - i,
    {
        assert(all[i as int] == words@[i as int]@);
        let o = classify(words[i].as_str());
        match o {
            Opt::Help => {
                return Ok(Parsed::Help);
            },
            Opt::Version => {
                return Ok(Parsed::Version);
            },
            Opt::Unknown => {
                return Err(ArgError::UnknownOption(words[i].clone()));
            },
            Opt::End => {
                a.command = words_from(words, i + 1);
                return finish(a);
            },
            Opt::Word => {
                a.command = words_from(words, i);
                return finish(a);
            },
            _ => {},
        }
        match o.flag_name() {
            None => {
                take_switch(&mut a, o);
                i = i + 1;
            },
            Some(flag) => {
                if i + 1 >= n {
                    return Err(ArgError::MissingValue(flag.to_owned()));
                }
                assert(all[i + 1] == words@[i + 1]@);
                if let Opt::PasswordFile = o {
                    if k >= files.len() {
                        return Ok(Parsed::NeedFile(words[i + 1].clone()));
                    }
                    assert(texts.skip(k as int)[0] == files@[k as int]@);
                    let line: String = first_line(files[k].as_str());
                    if line.as_str().is_empty() {
                        return Err(ArgError::EmptyPasswordFile(words[i + 1].clone()));
                    }
                    a.password = Some(line);
                    assert(texts.skip(k as int).skip(1) =~= texts.skip(k + 1));
                    k = k + 1;
                } else {
                    take_value(&mut a, o, &words[i + 1])?;
                }
                i = i + 2;
            },
        }
    }
    finish(a)
}

/// Which password clients are asked for.
pub enum PasswordChoice {
    /// None.
    Open,
    /// The one that was given; `cut` says that not all of it counts.
    Given { password: String, cut: bool },
    /// One that is yet to be made up.
    Random,
}

/// Decide which password clients are asked for. VNC passwords are limited to 8
/// characters; the rest is ignored.
pub fn resolve_password(args: &Args) -> (c: PasswordChoice)
    ensures
        match c {
            PasswordChoice::Open => args.no_password,
            PasswordChoice::Given { password, cut } => !args.no_password && args@.password == Some(
                password@,
            ) && cut == (encode_utf8(password@).len() > 8),
            PasswordChoice::Random => !args.no_password && args.password is None,
        },
{
    if args.no_password {
        return PasswordChoice::Open;
    }
    match &args.password {
        Some(p) => PasswordChoice::Given {
            password: p.clone(),
            cut: p.as_str().as_bytes().len() > 8,
        },
        None => PasswordChoice::Random,
    }
}

/// The letters and digits of generated passwords: none that is easily taken
/// for another.
pub open spec fn alphabet() -> Seq<char> {
    "abcdefghijkmnopqrstuvwxyzABCDEFGHJKLMNPQRSTUVWXYZ23456789"@
}

/// Eight characters from an unambiguous alphabet, one for each random byte.
pub fn random_password(bytes: &[u8; 8]) -> (s: String)
    ensures
        s@ == bytes@.map_values(|b: u8| alphabet()[b as int % 57]),
{
    let letters: Vec<char> = chars_of("abcdefghijkmnopqrstuvwxyzABCDEFGHJKLMNPQRSTUVWXYZ23456789");
    proof {
        reveal_strlit("abcdefghijkmnopqrstuvwxyzABCDEFGHJKLMNPQRSTUVWXYZ23456789");
    }
    let mut s: String = String::new();
    for i in 0..8usize
        invariant
            letters@ == alphabet(),
            letters@.len() == 57,
            s@.len() == i,
            forall|j: int| 0 <= j < i ==> #[trigger] s@[j] == alphabet()[bytes@[j] as int % 57],
    {
        s.push(letters[(bytes[i] % 57) as usize]);
    }
    assert(s@ =~= bytes@.map_values(|b: u8| alphabet()[b as int % 57]));
    s
}

/// Which display to serve.
pub enum DisplayChoice {
    /// One that is running already.
    Existing(String),
    /// One that is to be started.
    Start,
    /// The one that the environment names.
    FromEnvironment,
}

/// Decide which display to serve: the one that was named, else one of our own
/// for the command to run on, else the one that the environment names.
pub fn choose_display(args: &Args) -> (c: DisplayChoice)
    ensures
        match c {
            DisplayChoice::Existing(d) => args@.display == Some(d@),
            DisplayChoice::Start => args.display is None && args@.command.len() > 0,
            DisplayChoice::FromEnvironment => args.display is None && args@.command.len() == 0,
        },
{
    match &args.display {
        Some(d) => DisplayChoice::Existing(d.clone()),
        None => if args.command.len() > 0 {
            DisplayChoice::Start
        } else {
            DisplayChoice::FromEnvironment
        },
    }
}

/// Every generated password has eight characters of the alphabet.
pub proof fn lemma_generated_passwords_keep_to_the_alphabet(bytes: Seq<u8>, i: int)
    requires
        bytes.len() == 8,
        0 <= i < 8,
    ensures
        ({
            let p = bytes.map_values(|b: u8| alphabet()[b as int % 57]);
            p.len() == 8 && alphabet().contains(p[i])
        }),
{
    reveal_strlit("abcdefghijkmnopqrstuvwxyzABCDEFGHJKLMNPQRSTUVWXYZ23456789");
    let k = bytes[i] as int % 57;
    assert(alphabet()[k] == bytes.map_values(|b: u8| alphabet()[b as int % 57])[i]);
}

/// Words after the first that is no option belong to the command, whatever they
/// look like.
pub proof fn lemma_command_keeps_its_words(
    words: Seq<Seq<char>>,
    i: int,
    files: Seq<Seq<char>>,
    a: ArgsView,
)
    requires
        0 <= i < words.len(),
        option_of(words[i]) is Word,
    ensures
        parse_from(words, i, files, a) == finished(ArgsView { command: words.skip(i), ..a }),
{
}

/// The words of the options, short and long.
pub proof fn lemma_option_words()
    ensures
        option_of("-h"@) is Help,
        option_of("--help"@) is Help,
        option_of("-V"@) is Version,
        option_of("--version"@) is Version,
        option_of("-l"@) is Listen,
        option_of("--listen"@) is Listen,
        option_of("-d"@) is Display,
        option_of("--display"@) is Display,
        option_of("-g"@) is Geometry,
        option_of("--geometry"@) is Geometry,
        option_of("--depth"@) is Depth,
        option_of("--max-geometry"@) is MaxGeometry,
        option_of("--allow-origin"@) is AllowOrigin,
        option_of("--xserver"@) is XServer,
        option_of("-p"@) is Password,
        option_of("--password"@) is Password,
        option_of("--password-file"@) is PasswordFile,
        option_of("--no-password"@) is NoPassword,
        option_of("--view-only"@) is ViewOnly,
        option_of("--max-fps"@) is MaxFps,
        option_of("-v"@) is Verbose,
        option_of("--verbose"@) is Verbose,
        option_of("--"@) is End,
{
    reveal_strlit("-h");
    reveal_strlit("--help");
    reveal_strlit("-V");
    reveal_strlit("--version");
    reveal_strlit("-l");
    reveal_strlit("--listen");
    reveal_strlit("-d");
    reveal_strlit("--display");
    reveal_strlit("-g");
    reveal_strlit("--geometry");
    reveal_strlit("--depth");
    reveal_strlit("--max-geometry");
    reveal_strlit("--allow-origin");
    reveal_strlit("--xserver");
    reveal_strlit("-p");
    reveal_strlit("--password");
    reveal_strlit("--password-file");
    reveal_strlit("--no-password");
    reveal_strlit("--view-only");
    reveal_strlit("--max-fps");
    reveal_strlit("-v");
    reveal_strlit("--verbose");
    reveal_strlit("--");
    assert("-h"@.len() == 2);
    assert("--help"@.len() == 6);
    assert("-V"@.len() == 2);
    assert("--version"@.len() == 9);
    assert("-l"@.len() == 2);
    assert("--listen"@.len() == 8);
    assert("-d"@.len() == 2);
    assert("--display"@.len() == 9);
    assert("-g"@.len() == 2);
    assert("--geometry"@.len() == 10);
    assert("--depth"@.len() == 7);
    assert("--max-geometry"@.len() == 14);
    assert("--allow-origin"@.len() == 14);
    assert("--xserver"@.len() == 9);
    assert("-p"@.len() == 2);
    assert("--password"@.len() == 10);
    assert("--password-file"@.len() == 15);
    assert("--no-password"@.len() == 13);
    assert("--view-only"@.len() == 11);
    assert("--max-fps"@.len() == 9);
    assert("-v"@.len() == 2);
    assert("--verbose"@.len() == 9);
    assert("--"@.len() == 2);
    assert("-h"@[1] != "-V"@[1]);
    assert("-h"@[1] != "-l"@[1]);
    assert("-h"@[1] != "-d"@[1]);
    assert("-h"@[1] != "-g"@[1]);
    assert("-h"@[1] != "-p"@[1]);
    assert("-h"@[1] != "-v"@[1]);
    assert("-h"@[1] != "--"@[1]);
    assert("-V"@[1] != "-l"@[1]);
    assert("-V"@[1] != "-d"@[1]);
    assert("-V"@[1] != "-g"@[1]);
    assert("-V"@[1] != "-p"@[1]);
    assert("-V"@[1] != "-v"@[1]);
    assert("-V"@[1] != "--"@[1]);
    assert("--version"@[2] != "--display"@[2]);
    assert("--version"@[2] != "--xserver"@[2]);
    assert("--version"@[2] != "--max-fps"@[2]);
    assert("--version"@[5] != "--verbose"@[5]);
    assert("-l"@[1] != "-d"@[1]);
    assert("-l"@[1] != "-g"@[1]);
    assert("-l"@[1] != "-p"@[1]);
    assert("-l"@[1] != "-v"@[1]);
    assert("-l"@[1] != "--"@[1]);
    assert("-d"@[1] != "-g"@[1]);
    assert("-d"@[1] != "-p"@[1]);
    assert("-d"@[1] != "-v"@[1]);
    assert("-d"@[1] != "--"@[1]);
    assert("--display"@[2] != "--xserver"@[2]);
    assert("--display"@[2] != "--max-fps"@[2]);
    assert("--display"@[2] != "--verbose"@[2]);
    assert("-g"@[1] != "-p"@[1]);
    assert("-g"@[1] != "-v"@[1]);
    assert("-g"@[1] != "--"@[1]);
    assert("--geometry"@[2] != "--password"@[2]);
    assert("--max-geometry"@[2] != "--allow-origin"@[2]);
    assert("--xserver"@[2] != "--max-fps"@[2]);
    assert("--xserver"@[2] != "--verbose"@[2]);
    assert("-p"@[1] != "-v"@[1]);
    assert("-p"@[1] != "--"@[1]);
    assert("--max-fps"@[2] != "--verbose"@[2]);
    assert("-v"@[1] != "--"@[1]);
}

/// An option takes the word after it for its value and sets what it names and nothing
/// else: an address, a display, a size, the largest size, one more origin, an X server,
/// a password, a depth of 16, 24 or 30, and a rate from 1 to 120. A switch sets what it
/// names and takes no value.
pub proof fn lemma_options_set_what_they_name(
    words: Seq<Seq<char>>,
    i: int,
    files: Seq<Seq<char>>,
    a: ArgsView,
)
    requires
        0 <= i,
        i + 1 < words.len(),
    ensures
        ({
            let (w, v) = (words[i], words[i + 1]);
            let n = number_in(v, 0xffff_ffff);
            let got = parse_from(words, i, files, a);
            &&& w == "-l"@ || w == "--listen"@ ==> got == parse_from(
                words,
                i + 2,
                files,
                ArgsView { listen: v, ..a },
            )
            &&& w == "-d"@ || w == "--display"@ ==> got == parse_from(
                words,
                i + 2,
                files,
                ArgsView { display: Some(v), ..a },
            )
            &&& (w == "-g"@ || w == "--geometry"@) && geometry_of(v) is Ok ==> got == parse_from(
                words,
                i + 2,
                files,
                ArgsView { geometry: geometry_of(v)->Ok_0, ..a },
            )
            &&& w == "--max-geometry"@ && geometry_of(v) is Ok ==> got == parse_from(
                words,
                i + 2,
                files,
                ArgsView { max_geometry: geometry_of(v)->Ok_0, ..a },
            )
            &&& w == "--allow-origin"@ ==> got == parse_from(
                words,
                i + 2,
                files,
                ArgsView { allow_origin: a.allow_origin.push(v), ..a },
            )
            &&& w == "--xserver"@ ==> got == parse_from(
                words,
                i + 2,
                files,
                ArgsView { xserver: v, ..a },
            )
            &&& w == "-p"@ || w == "--password"@ ==> got == parse_from(
                words,
                i + 2,
                files,
                ArgsView { password: Some(v), ..a },
            )
            &&& w == "--depth"@ && (n == Some(16int) || n == Some(24int) || n == Some(30int)) ==> got
                == parse_from(words, i + 2, files, ArgsView { depth: n->0 as u32, ..a })
            &&& w == "--max-fps"@ && n is Some && 1 <= n->0 <= 120 ==> got == parse_from(
                words,
                i + 2,
                files,
                ArgsView { max_fps: n->0 as u32, ..a },
            )
            &&& w == "--max-fps"@ && n is Some && n->0 < 1 ==> got == parse_from(
                words,
                i + 2,
                files,
                ArgsView { max_fps: 1, ..a },
            )
            &&& w == "--max-fps"@ && n is Some && n->0 > 120 ==> got == parse_from(
                words,
                i + 2,
                files,
                ArgsView { max_fps: 120, ..a },
            )
            &&& w == "--password-file"@ && files.len() > 0 && password_in(files[0]).len() > 0 ==> got
                == parse_from(
                words,
                i + 2,
                files.skip(1),
                ArgsView { password: Some(password_in(files[0])), ..a },
            )
            &&& w == "--no-password"@ ==> got == parse_from(
                words,
                i + 1,
                files,
                ArgsView { no_password: true, ..a },
            )
            &&& w == "--view-only"@ ==> got == parse_from(
                words,
                i + 1,
                files,
                ArgsView { view_only: true, ..a },
            )
            &&& w == "-v"@ || w == "--verbose"@ ==> got == parse_from(
                words,
                i + 1,
                files,
                ArgsView { verbose: true, ..a },
            )
        }),
{
    lemma_option_words();
}

/// Words that are not understood are errors that name them: an unknown option, an option
/// without its value, a size, a depth or a rate that is none, a password file without a
/// password, and a password together with the wish for none. A question for help or for
/// the version is answered and nothing else.
pub proof fn lemma_bad_words_are_named(
    words: Seq<Seq<char>>,
    i: int,
    files: Seq<Seq<char>>,
    a: ArgsView,
)
    requires
        0 <= i < words.len(),
    ensures
        ({
            let w = words[i];
            let v = words[i + 1];
            let n = number_in(v, 0xffff_ffff);
            let got = parse_from(words, i, files, a);
            let last = i + 1 == words.len();
            &&& w == "-h"@ || w == "--help"@ ==> got is Help
            &&& w == "-V"@ || w == "--version"@ ==> got is Version
            &&& last && (w == "-l"@ || w == "--listen"@) ==> got == ParsedView::Failed(
                ArgErrorView::MissingValue("--listen"@),
            )
            &&& last && (w == "-p"@ || w == "--password"@) ==> got == ParsedView::Failed(
                ArgErrorView::MissingValue("--password"@),
            )
            &&& last && (w == "-d"@ || w == "--display"@) ==> got == ParsedView::Failed(
                ArgErrorView::MissingValue("--display"@),
            )
            &&& last && (w == "-g"@ || w == "--geometry"@) ==> got == ParsedView::Failed(
                ArgErrorView::MissingValue("--geometry"@),
            )
            &&& last && w == "--depth"@ ==> got == ParsedView::Failed(
                ArgErrorView::MissingValue("--depth"@),
            )
            &&& last && w == "--max-geometry"@ ==> got == ParsedView::Failed(
                ArgErrorView::MissingValue("--max-geometry"@),
            )
            &&& last && w == "--allow-origin"@ ==> got == ParsedView::Failed(
                ArgErrorView::MissingValue("--allow-origin"@),
            )
            &&& last && w == "--xserver"@ ==> got == ParsedView::Failed(
                ArgErrorView::MissingValue("--xserver"@),
            )
            &&& last && w == "--password-file"@ ==> got == ParsedView::Failed(
                ArgErrorView::MissingValue("--password-file"@),
            )
            &&& last && w == "--max-fps"@ ==> got == ParsedView::Failed(
                ArgErrorView::MissingValue("--max-fps"@),
            )
            &&& !last && (w == "-g"@ || w == "--geometry"@ || w == "--max-geometry"@)
                && geometry_of(v) is Err ==> got == ParsedView::Failed(geometry_of(v)->Err_0)
            &&& !last && w == "--depth"@ && n is None ==> got == ParsedView::Failed(
                ArgErrorView::NotANumber("--depth"@),
            )
            &&& !last && w == "--depth"@ && n is Some && n->0 != 16 && n->0 != 24 && n->0 != 30
                ==> got == ParsedView::Failed(ArgErrorView::UnsupportedDepth(n->0 as u32))
            &&& !last && w == "--max-fps"@ && n is None ==> got == ParsedView::Failed(
                ArgErrorView::NotANumber("--max-fps"@),
            )
            &&& !last && w == "--password-file"@ && files.len() == 0 ==> got
                == ParsedView::NeedFile(v)
            &&& !last && w == "--password-file"@ && files.len() > 0 && password_in(
                files[0],
            ).len() == 0 ==> got == ParsedView::Failed(ArgErrorView::EmptyPasswordFile(v))
        }),
        finished(a) == (if a.password is Some && a.no_password {
            ParsedView::Failed(ArgErrorView::ContradictingPasswords)
        } else {
            ParsedView::Run(a)
        }),
        parse_from(words, words.len() as int, files, a) == finished(a),
{
    lemma_option_words();
}

/// Two dashes end the options: what follows them is the command, whatever it looks like.
/// A word that begins with no dash is the command's first, and one that begins with a
/// dash and is no option is refused.
pub proof fn lemma_command_begins_where_options_end(
    words: Seq<Seq<char>>,
    i: int,
    files: Seq<Seq<char>>,
    a: ArgsView,
)
    requires
        0 <= i < words.len(),
    ensures
        words[i] == "--"@ ==> parse_from(words, i, files, a) == finished(
            ArgsView { command: words.skip(i + 1), ..a },
        ),
        words[i].len() > 0 && words[i][0] != '-' ==> parse_from(words, i, files, a) == finished(
            ArgsView { command: words.skip(i), ..a },
        ),
        words[i].len() > 1 && words[i][0] == '-' && option_of(words[i]) is Unknown ==> parse_from(
            words,
            i,
            files,
            a,
        ) == ParsedView::Failed(ArgErrorView::UnknownOption(words[i])),
        option_of(words[i]) is Word ==> words[i].len() <= 1 || words[i][0] != '-',
{
    lemma_option_words();
    reveal_strlit("-h");
    reveal_strlit("--help");
    reveal_strlit("-V");
    reveal_strlit("--version");
    reveal_strlit("-l");
    reveal_strlit("--listen");
    reveal_strlit("-d");
    reveal_strlit("--display");
    reveal_strlit("-g");
    reveal_strlit("--geometry");
    reveal_strlit("--depth");
    reveal_strlit("--max-geometry");
    reveal_strlit("--allow-origin");
    reveal_strlit("--xserver");
    reveal_strlit("-p");
    reveal_strlit("--password");
    reveal_strlit("--password-file");
    reveal_strlit("--no-password");
    reveal_strlit("--view-only");
    reveal_strlit("--max-fps");
    reveal_strlit("-v");
    reveal_strlit("--verbose");
    reveal_strlit("--");
    let w = words[i];
    if w.len() > 0 && w[0] != '-' {
        assert("-h"@[0] == '-');
        assert("--help"@[0] == '-');
        assert("-V"@[0] == '-');
        assert("--version"@[0] == '-');
        assert("-l"@[0] == '-');
        assert("--listen"@[0] == '-');
        assert("-d"@[0] == '-');
        assert("--display"@[0] == '-');
        assert("-g"@[0] == '-');
        assert("--geometry"@[0] == '-');
        assert("--depth"@[0] == '-');
        assert("--max-geometry"@[0] == '-');
        assert("--allow-origin"@[0] == '-');
        assert("--xserver"@[0] == '-');
        assert("-p"@[0] == '-');
        assert("--password"@[0] == '-');
        assert("--password-file"@[0] == '-');
        assert("--no-password"@[0] == '-');
        assert("--view-only"@[0] == '-');
        assert("--max-fps"@[0] == '-');
        assert("-v"@[0] == '-');
        assert("--verbose"@[0] == '-');
        assert("--"@[0] == '-');
        assert(option_of(w) is Word);
    }
}

/// A size is two numbers with an x between them, each from 16 to 16384.
pub proof fn lemma_sizes_are_read(w: nat, h: nat)
    requires
        w <= 0xffff_ffff,
        h <= 0xffff_ffff,
    ensures
        ({
            let s = decimal(w) + seq!['x'] + decimal(h);
            let large = decimal(w) + seq!['X'] + decimal(h);
            let good = 16 <= w <= 16384 && 16 <= h <= 16384;
            &&& good ==> geometry_of(s) == Ok::<(u32, u32), ArgErrorView>((w as u32, h as u32))
            &&& good ==> geometry_of(large) == Ok::<(u32, u32), ArgErrorView>((w as u32, h as u32))
            &&& !good ==> geometry_of(s) == Err::<(u32, u32), ArgErrorView>(
                ArgErrorView::GeometryOutOfRange(s),
            )
            &&& geometry_of(decimal(w)) == Err::<(u32, u32), ArgErrorView>(
                ArgErrorView::BadGeometry(decimal(w)),
            )
        }),
{
    lemma_size_with(w, h, 'x');
    lemma_size_with(w, h, 'X');
    lemma_decimal_reads_back(w);
    let d = decimal(w);
    lemma_next_char(d, 'x', 0);
    lemma_next_char(d, 'X', 0);
    let (a, b) = (next_char(d, 'x', 0), next_char(d, 'X', 0));
    if a < d.len() {
        assert('0' <= d[a] && d[a] <= '9');
    }
    if b < d.len() {
        assert('0' <= d[b] && d[b] <= '9');
    }
}

proof fn lemma_digits_are_bare(n: nat)
    ensures
        trimmed(decimal(n)) == decimal(n),
        number_in(decimal(n), 0xffff_ffff) == (if n <= 0xffff_ffff {
            Some(n as int)
        } else {
            None
        }),
{
    lemma_decimal_reads_back(n);
    let d = decimal(n);
    assert('0' <= d[0] && d[0] <= '9');
    assert('0' <= d[d.len() - 1] && d[d.len() - 1] <= '9');
    lemma_ascii_white(d[0]);
    lemma_ascii_white(d[d.len() - 1]);
    lemma_ends_are_trimmed(seq![], d, seq![]);
    assert(seq![] + d + seq![] =~= d);
    assert(d[0] != '+');
}

proof fn lemma_size_with(w: nat, h: nat, c: char)
    requires
        c == 'x' || c == 'X',
        w <= 0xffff_ffff,
        h <= 0xffff_ffff,
    ensures
        ({
            let s = decimal(w) + seq![c] + decimal(h);
            geometry_of(s) == (if 16 <= w <= 16384 && 16 <= h <= 16384 {
                Ok((w as u32, h as u32))
            } else {
                Err(ArgErrorView::GeometryOutOfRange(s))
            })
        }),
{
    lemma_decimal_reads_back(w);
    lemma_decimal_reads_back(h);
    lemma_digits_are_bare(w);
    lemma_digits_are_bare(h);
    let (d, e) = (decimal(w), decimal(h));
    let s = d + seq![c] + e;
    let n = d.len() as int;
    lemma_next_char(s, 'x', 0);
    lemma_next_char(s, 'X', 0);
    assert(s[n] == c);
    assert forall|i: int| 0 <= i < s.len() && i != n implies s[i] != 'x' && s[i] != 'X' by {
        if i < n {
            assert('0' <= d[i] && d[i] <= '9');
            assert(s[i] == d[i]);
        } else {
            assert('0' <= e[i - n - 1] && e[i - n - 1] <= '9');
            assert(s[i] == e[i - n - 1]);
        }
    }
    assert(s.contains(c));
    let (a, b) = (next_char(s, 'x', 0), next_char(s, 'X', 0));
    if c == 'x' {
        assert(a == n);
        assert(b == s.len());
    } else {
        assert(b == n);
        assert(a == s.len());
    }
    assert(cross_at(s) == n);
    assert(s.take(n) =~= d);
    assert(s.skip(n + 1) =~= e);
}

/// A port alone is one on every address, with or without a colon before it; text with a
/// colon elsewhere is an address as it is; and other text has no port.
pub proof fn lemma_addresses_are_read(port: nat, s: Seq<char>)
    requires
        port <= 65535,
        s.len() > 0,
        s[0] != ':' && number_in(s, 65535) is None,
    ensures
        address_of(decimal(port)) == Ok::<Seq<char>, ArgErrorView>("0.0.0.0:"@ + decimal(port)),
        address_of(seq![':'] + decimal(port)) == Ok::<Seq<char>, ArgErrorView>(
            "0.0.0.0:"@ + decimal(port),
        ),
        address_of(s) == (if s.contains(':') {
            Ok(s)
        } else {
            Err(ArgErrorView::NeedsPort(s))
        }),
        address_of(seq![':'] + s) == Err::<Seq<char>, ArgErrorView>(
            ArgErrorView::BadPort(seq![':'] + s),
        ),
{
    lemma_decimal_reads_back(port);
    let d = decimal(port);
    assert('0' <= d[0]);
    let t = seq![':'] + d;
    assert(t.skip(1) =~= d);
    let u = seq![':'] + s;
    assert(u.skip(1) =~= s);
    lemma_number_is_read(t, ':', 65535, 0);
    lemma_number_is_read(u, ':', 65535, 0);
}

/// The password in a file is its first line without the white characters around it.
pub proof fn lemma_first_line_is_the_password(
    lead: Seq<char>,
    word: Seq<char>,
    tail: Seq<char>,
    more: Seq<char>,
)
    requires
        all_white(lead) && all_white(tail) && bare(word),
        !lead.contains('\n') && !word.contains('\n') && !tail.contains('\n'),
    ensures
        password_in(lead + word + tail + seq!['\n'] + more) == word,
        password_in(lead + word + tail) == word,
{
    let line = lead + word + tail;
    if line.contains('\n') {
        let i = choose|i: int| 0 <= i < line.len() && line[i] == '\n';
        if i < lead.len() {
            assert(lead[i] == '\n');
        } else if i < lead.len() + word.len() {
            assert(word[i - lead.len()] == '\n');
        } else {
            assert(tail[i - lead.len() - word.len()] == '\n');
        }
    }
    lemma_text_is_cut(line, '\n', more);
    lemma_ends_are_trimmed(lead, word, tail);
}

/// The characters of generated passwords are all different, and none of them looks like
/// another: neither a small L nor a large I, neither the letter O nor a zero, nor a one.
pub proof fn lemma_alphabet_is_unambiguous(i: int, j: int)
    requires
        0 <= i < j < alphabet().len(),
    ensures
        alphabet().len() == 57,
        alphabet()[i] != alphabet()[j],
        !alphabet().contains('l') && !alphabet().contains('I') && !alphabet().contains('O'),
        !alphabet().contains('0') && !alphabet().contains('1'),
{
    reveal_strlit("abcdefghijkmnopqrstuvwxyzABCDEFGHJKLMNPQRSTUVWXYZ23456789");
}

/// Where nothing is said, the server listens on port 6080 of every address, starts Xvfb
/// with a screen of 1440 by 900 pixels of 24 bits that clients may make as large as 1920
/// by 1200, makes up a password, takes input and reads the screen thirty times a second.
pub proof fn lemma_defaults()
    ensures
        ({
            let a = ArgsView::defaults();
            &&& a.listen == "0.0.0.0:6080"@ && a.xserver == "Xvfb"@
            &&& a.geometry == (1440u32, 900u32) && a.max_geometry == (1920u32, 1200u32)
            &&& a.depth == 24 && a.max_fps == 30
            &&& a.display is None && a.password is None && a.command.len() == 0
            &&& a.allow_origin.len() == 0
            &&& !a.no_password && !a.view_only && !a.verbose
        }),
{
}

/// A size is cut at its first x, small or large: what stands before it is the width and
/// what stands after it the height, and the error says which of them is no number.
pub proof fn lemma_sizes_are_cut_at_the_x(a: Seq<char>, c: char, b: Seq<char>)
    requires
        c == 'x' || c == 'X',
        !a.contains('x') && !a.contains('X'),
    ensures
        ({
            let s = a + seq![c] + b;
            let w = number_in(trimmed(a), 0xffff_ffff);
            let h = number_in(trimmed(b), 0xffff_ffff);
            &&& w is None ==> geometry_of(s) == Err::<(u32, u32), ArgErrorView>(
                ArgErrorView::BadWidth(s),
            )
            &&& w is Some && h is None ==> geometry_of(s) == Err::<(u32, u32), ArgErrorView>(
                ArgErrorView::BadHeight(s),
            )
            &&& w is Some && h is Some ==> geometry_of(s) == (if 16 <= w->0 <= 16384 && 16 <= h->0
                <= 16384 {
                Ok((w->0 as u32, h->0 as u32))
            } else {
                Err(ArgErrorView::GeometryOutOfRange(s))
            })
        }),
        geometry_of(a) == Err::<(u32, u32), ArgErrorView>(ArgErrorView::BadGeometry(a)),
        address_of(seq![]) == Err::<Seq<char>, ArgErrorView>(ArgErrorView::NeedsPort(seq![])),
{
    let s = a + seq![c] + b;
    let n = a.len() as int;
    assert(s[n] == c);
    assert(s.contains(c));
    lemma_next_char(s, 'x', 0);
    lemma_next_char(s, 'X', 0);
    let (j, k) = (next_char(s, 'x', 0), next_char(s, 'X', 0));
    if j < n {
        assert(a[j] == 'x');
    }
    if k < n {
        assert(a[k] == 'X');
    }
    assert(cross_at(s) == n);
    assert(s.take(n) =~= a);
    assert(s.skip(n + 1) =~= b);
    lemma_next_char(a, 'x', 0);
    lemma_next_char(a, 'X', 0);
    if next_char(a, 'x', 0) < n {
        assert(a[next_char(a, 'x', 0)] == 'x');
    }
    if next_char(a, 'X', 0) < n {
        assert(a[next_char(a, 'X', 0)] == 'X');
    }
}

} // verus!
