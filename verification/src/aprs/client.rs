//! The decisions of an APRS-IS client: the login line it sends, how it reads the server's
//! answers to it, and which lines of the report stream it reads as reports.
use vstd::prelude::*;
use vstd::string::StrSliceExecFns;

verus! {

#[derive(Clone, Debug)]
pub struct Credentials {
    pub user: String,
    pub password: String,
    pub app_name: String,
    pub app_version: String,
}

/// The filters, each preceded by a space.
pub open spec fn filters_text(filters: Seq<Seq<char>>) -> Seq<char>
    decreases filters.len(),
{
    if filters.len() == 0 {
        Seq::empty()
    } else {
        filters_text(filters.drop_last()) + " "@ + filters.last()
    }
}

/// The login line: `user U pass P vers NAME VERSION`, then ` filter` and the filters where
/// there are any, then a newline.
pub open spec fn login_line_spec(
    user: Seq<char>,
    password: Seq<char>,
    app_name: Seq<char>,
    app_version: Seq<char>,
    filters: Seq<Seq<char>>,
) -> Seq<char> {
    "user "@ + user + " pass "@ + password + " vers "@ + app_name + " "@ + app_version + (
    if filters.len() == 0 {
        Seq::empty()
    } else {
        " filter"@ + filters_text(filters)
    }) + "\n"@
}

/// The line that logs in to the server with these credentials and filters (each filter as
/// the server reads it).
pub fn login_line(creds: &Credentials, filters: &Vec<String>) -> (r: String)
    ensures
        r@ == login_line_spec(
            creds.user@,
            creds.password@,
            creds.app_name@,
            creds.app_version@,
            filters@.map_values(|f: String| f@),
        ),
{
    let ghost fs = filters@.map_values(|f: String| f@);
    let mut s = String::new();
    s.append("user ");
    s.append(creds.user.as_str());
    s.append(" pass ");
    s.append(creds.password.as_str());
    s.append(" vers ");
    s.append(creds.app_name.as_str());
    s.append(" ");
    s.append(creds.app_version.as_str());
    let ghost head = s@;
    if filters.len() > 0 {
        s.append(" filter");
        let mut i: usize = 0;
        assert(fs.take(0) =~= Seq::<Seq<char>>::empty());
        while i < filters.len()
            invariant
                i <= filters@.len(),
                fs == filters@.map_values(|f: String| f@),
                s@ == head + " filter"@ + filters_text(fs.take(i as int)),
            decreases filters@.len() - i,
        {
            s.append(" ");
            s.append(filters[i].as_str());
            assert(fs.take(i + 1).drop_last() =~= fs.take(i as int));
            assert(fs.take(i + 1).last() == fs[i as int]);
            i = i + 1;
        }
        assert(fs.take(i as int) =~= fs);
    }
    s.append("\n");
    proof {
        if filters@.len() == 0 {
            assert(head + Seq::<char>::empty() =~= head);
        }
    }
    s
}

pub open spec fn starts_with(s: Seq<char>, p: Seq<char>) -> bool {
    p.len() <= s.len() && s.take(p.len() as int) == p
}

pub open spec fn contains(s: Seq<char>, p: Seq<char>) -> bool {
    exists|i: int| 0 <= i && i + p.len() <= s.len() && #[trigger] s.subrange(i, i + p.len()) == p
}

fn str_starts_at(s: &str, p: &str, i: usize) -> (r: bool)
    requires
        i <= s@.len(),
    ensures
        r == (i + p@.len() <= s@.len() && s@.subrange(i as int, i + p@.len()) == p@),
{
    let n = s.unicode_len();
    let m = p.unicode_len();
    if m > n - i {
        return false;
    }
    let mut k: usize = 0;
    while k < m
        invariant
            k <= m == p@.len(),
            n == s@.len(),
            i + m <= n,
            forall|q: int| 0 <= q < k ==> s@[i + q] == p@[q],
        decreases m - k,
    {
        if s.get_char(i + k) != p.get_char(k) {
            assert(s@.subrange(i as int, i + m)[k as int] != p@[k as int]);
            return false;
        }
        k = k + 1;
    }
    assert(s@.subrange(i as int, i + m) =~= p@);
    true
}

pub fn str_starts_with(s: &str, p: &str) -> (r: bool)
    ensures
        r == starts_with(s@, p@),
{
    str_starts_at(s, p, 0)
}

pub fn str_contains(s: &str, p: &str) -> (r: bool)
    ensures
        r == contains(s@, p@),
{
    let n = s.unicode_len();
    let m = p.unicode_len();
    if m == 0 {
        assert(s@.subrange(0int, 0int + p@.len()) =~= p@);
        return true;
    }
    if m > n {
        return false;
    }
    let mut i: usize = 0;
    while i <= n - m
        invariant
            n == s@.len(),
            m == p@.len(),
            1 <= m <= n,
            i <= n - m + 1,
            forall|j: int| 0 <= j < i ==> !(#[trigger] s@.subrange(j, j + p@.len()) == p@),
        decreases n - m + 1 - i,
    {
        if str_starts_at(s, p, i) {
            return true;
        }
        i = i + 1;
    }
    false
}

/// What a line from the server during login means.
#[derive(Clone, Copy, Debug, PartialEq, Eq, Structural)]
pub enum LoginStep {
    /// Keep reading.
    Continue,
    /// The server accepted the login.
    LoggedIn,
    /// The server answered that the credentials are not verified.
    InvalidCredentials,
    /// The server answered that the user name has an invalid format.
    InvalidUsername,
}

/// How a line read during login is taken: server comments start with `#`; `# aprs` is the
/// greeting; `# logresp ... unverified` refuses the credentials; with `check_username`,
/// `# Invalid username format` refuses the user name; any other comment accepts the login.
pub open spec fn login_step_spec(line: Seq<char>, check_username: bool) -> LoginStep {
    if !starts_with(line, "#"@) {
        LoginStep::Continue
    } else if starts_with(line, "# aprs"@) {
        LoginStep::Continue
    } else if starts_with(line, "# logresp"@) && contains(line, "unverified"@) {
        LoginStep::InvalidCredentials
    } else if check_username && starts_with(line, "# Invalid username format"@) {
        LoginStep::InvalidUsername
    } else {
        LoginStep::LoggedIn
    }
}

/// How a line read during login is taken (`check_username` for the asynchronous client,
/// which also recognises a refused user name).
pub fn login_step(line: &str, check_username: bool) -> (r: LoginStep)
    ensures
        r == login_step_spec(line@, check_username),
{
    if !str_starts_with(line, "#") {
        LoginStep::Continue
    } else if str_starts_with(line, "# aprs") {
        LoginStep::Continue
    } else if str_starts_with(line, "# logresp") && str_contains(line, "unverified") {
        LoginStep::InvalidCredentials
    } else if check_username && str_starts_with(line, "# Invalid username format") {
        LoginStep::InvalidUsername
    } else {
        LoginStep::LoggedIn
    }
}

/// What to do with a line of the report stream.
#[derive(Clone, Copy, Debug, PartialEq, Eq, Structural)]
pub enum LineAction {
    /// Nothing was read: the stream ended.
    EndOfStream,
    /// A server comment.
    Skip,
    /// A report to read.
    Parse,
}

/// What to do with a line after reading `read` bytes into it: the stream ended where nothing
/// was read, a server comment is skipped, any other line is read as a report.
pub open spec fn line_action_spec(read: nat, line: Seq<char>) -> LineAction {
    if read == 0 {
        LineAction::EndOfStream
    } else if starts_with(line, "#"@) {
        LineAction::Skip
    } else {
        LineAction::Parse
    }
}

/// The lines read as reports, from the reads of a stream (bytes read, line), each taken as
/// `line_action_spec` says until the stream ends.
pub open spec fn parsed_lines(reads: Seq<(nat, Seq<char>)>) -> Seq<Seq<char>>
    decreases reads.len(),
{
    if reads.len() == 0 {
        Seq::empty()
    } else {
        match line_action_spec(reads[0].0, reads[0].1) {
            LineAction::EndOfStream => Seq::empty(),
            LineAction::Skip => parsed_lines(reads.drop_first()),
            LineAction::Parse => seq![reads[0].1] + parsed_lines(reads.drop_first()),
        }
    }
}

/// The lines of a text that are no server comment, in order.
pub open spec fn non_comment_lines(lines: Seq<Seq<char>>) -> Seq<Seq<char>>
    decreases lines.len(),
{
    if lines.len() == 0 {
        Seq::empty()
    } else if starts_with(lines[0], "#"@) {
        non_comment_lines(lines.drop_first())
    } else {
        seq![lines[0]] + non_comment_lines(lines.drop_first())
    }
}

/// A report stream, which holds its stream as given (`Reports::new` reads nothing), reads as
/// reports exactly the remaining lines of the stream that are no server comment, in order:
/// each line is read whole (at least one byte), then the stream ends with an empty read.
pub proof fn reports_are_the_remaining_lines(lines: Seq<Seq<char>>)
    requires
        forall|i: int| 0 <= i < lines.len() ==> (#[trigger] lines[i]).len() > 0,
    ensures
        parsed_lines(lines.map_values(|l: Seq<char>| (l.len(), l)).push((0nat, Seq::<char>::empty())))
            == non_comment_lines(lines),
    decreases lines.len(),
{
    let reads = lines.map_values(|l: Seq<char>| (l.len(), l)).push((0nat, Seq::<char>::empty()));
    if lines.len() == 0 {
        assert(reads[0] == (0nat, Seq::<char>::empty()));
    } else {
        let rest = lines.drop_first();
        assert forall|i: int| 0 <= i < rest.len() implies (#[trigger] rest[i]).len() > 0 by {
            assert(rest[i] == lines[i + 1]);
        }
        reports_are_the_remaining_lines(rest);
        assert(reads.drop_first() =~= rest.map_values(|l: Seq<char>| (l.len(), l)).push(
            (0nat, Seq::<char>::empty()),
        ));
        assert(reads[0] == (lines[0].len(), lines[0]));
        assert(lines[0].len() > 0);
    }
}

/// Where reports are read from.
#[derive(Clone, Debug, PartialEq, Eq)]
pub enum ReportSource {
    /// The standard input.
    Stdin,
    /// A file (or a socket) at the path.
    File(String),
    /// An APRS server at the address.
    Server(String),
}

/// The source that an APRS URI names: `-` is the standard input; `file://PATH` and `./PATH`
/// name the file PATH; anything else is a server address.
pub open spec fn report_source_spec(uri: Seq<char>) -> (u8, Seq<char>) {
    if uri == "-"@ {
        (0, Seq::empty())
    } else if starts_with(uri, "file://"@) {
        (1, uri.skip(7))
    } else if starts_with(uri, "./"@) {
        (1, uri.skip(2))
    } else {
        (2, uri)
    }
}

pub open spec fn source_view(s: ReportSource) -> (u8, Seq<char>) {
    match s {
        ReportSource::Stdin => (0, Seq::empty()),
        ReportSource::File(p) => (1, p@),
        ReportSource::Server(a) => (2, a@),
    }
}

/// The source that an APRS URI names (see `report_source_spec`).
pub fn report_source(uri: &str) -> (r: ReportSource)
    ensures
        source_view(r) == report_source_spec(uri@),
{
    let n = uri.unicode_len();
    proof {
        reveal_strlit("-");
        reveal_strlit("file://");
        reveal_strlit("./");
    }
    if n == 1 && uri.get_char(0) == '-' {
        assert(uri@ =~= "-"@);
        ReportSource::Stdin
    } else if str_starts_with(uri, "file://") {
        proof {
            if uri@ == "-"@ {
                assert(uri@[0] == 'f');
            }
        }
        assert(uri@.skip(7) =~= uri@.subrange(7, n as int));
        ReportSource::File(uri.substring_char(7, n).to_owned())
    } else if str_starts_with(uri, "./") {
        proof {
            if uri@ == "-"@ {
                assert(uri@[0] == '.');
            }
        }
        assert(uri@.skip(2) =~= uri@.subrange(2, n as int));
        ReportSource::File(uri.substring_char(2, n).to_owned())
    } else {
        proof {
            if uri@ == "-"@ {
                assert(n == 1 && uri@[0] == '-');
            }
        }
        ReportSource::Server(uri.to_owned())
    }
}

/// A connection that logged in.
pub struct APRSClient<R> {
    pub stream: R,
}

impl<R> APRSClient<R> {
    pub fn reports(self) -> (r: Reports<R>)
        ensures
            r.stream == self.stream,
    {
        Reports::new(self.stream)
    }
}

/// The reports of a stream, line by line.
pub struct Reports<R> {
    pub stream: R,
}

impl<R> Reports<R> {
    pub fn new(stream: R) -> (r: Self)
        ensures
            r.stream == stream,
    {
        Self { stream }
    }

    /// What to do with a line after reading `read` bytes into it.
    pub fn line_action(read: usize, line: &str) -> (r: LineAction)
        ensures
            r == line_action_spec(read as nat, line@),
    {
        if read == 0 {
            LineAction::EndOfStream
        } else if str_starts_with(line, "#") {
            LineAction::Skip
        } else {
            LineAction::Parse
        }
    }
}

} // verus!
