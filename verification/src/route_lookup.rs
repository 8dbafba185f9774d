//! What the kernel is asked about a route: the query as it is typed, and the request
//! that it becomes.
use crate::addresses;
use crate::addresses::{read_address, read_number, IpAddress};
use crate::text;
use crate::text::{
    owned, parse_unsigned, same_text, split_words, text_of, trim,
};
use vstd::prelude::*;
use vstd::string::*;

verus! {

/// How long a query may be.
pub const MAX_LOOKUP_INPUT_BYTES: usize = 256;

/// How long the name of an interface may be.
pub const MAX_INTERFACE_NAME: usize = 15;

/// A query about a route.
#[derive(Clone, PartialEq, Eq)]
pub struct RouteLookupQuery<T> {
    pub input: T,
    pub destination: IpAddress,
    pub source: Option<IpAddress>,
    pub input_interface: Option<T>,
    pub output_interface: Option<T>,
    pub mark: Option<u32>,
    pub uid: Option<u32>,
    pub tos: Option<u8>,
}

/// A query as contracts speak of it.
pub type QueryModel = RouteLookupQuery<Seq<char>>;

impl DeepView for RouteLookupQuery<String> {
    type V = QueryModel;

    open spec fn deep_view(&self) -> QueryModel {
        RouteLookupQuery {
            input: self.input@,
            destination: self.destination,
            source: self.source,
            input_interface: text::optional_text(self.input_interface),
            output_interface: text::optional_text(self.output_interface),
            mark: self.mark,
            uid: self.uid,
            tos: self.tos,
        }
    }
}

/// Whether a text is ASCII.
pub open spec fn is_ascii(text: Seq<char>) -> bool {
    forall|i: int| 0 <= i < text.len() ==> (#[trigger] text[i]) <= '\x7f'
}

fn all_ascii(text: &Vec<char>) -> (ascii: bool)
    ensures
        ascii == is_ascii(text@),
{
    for i in 0..text.len()
        invariant
            forall|j: int| 0 <= j < i ==> (#[trigger] text@[j]) <= '\x7f',
    {
        if text[i] > '\x7f' {
            return false;
        }
    }
    true
}

/// Whether a character may stand in the name of an interface.
pub open spec fn is_name_char(c: char) -> bool {
    c != '/' && c != ':' && !text::is_white(c)
}

/// Whether Linux takes a text as the name of an interface.
pub open spec fn is_interface_name(name: Seq<char>) -> bool {
    &&& 1 <= name.len() <= MAX_INTERFACE_NAME
    &&& name != "."@
    &&& name != ".."@
    &&& forall|i: int| 0 <= i < name.len() ==> is_name_char(#[trigger] name[i])
}

pub fn valid_interface_name(name: &Vec<char>) -> (valid: bool)
    ensures
        valid == is_interface_name(name@),
{
    if name.len() == 0 || name.len() > MAX_INTERFACE_NAME {
        return false;
    }
    proof {
        reveal_strlit(".");
        reveal_strlit("..");
    }
    if name.len() == 1 && name[0] == '.' {
        assert(name@ =~= "."@);
        return false;
    }
    if name.len() == 2 && name[0] == '.' && name[1] == '.' {
        assert(name@ =~= ".."@);
        return false;
    }
    for i in 0..name.len()
        invariant
            forall|j: int| 0 <= j < i ==> is_name_char(#[trigger] name@[j]),
    {
        let c = name[i];
        if c == '/' || c == ':' || text::white(c) {
            assert(!is_name_char(name@[i as int]));
            return false;
        }
    }
    true
}

/// The number that an option is: hexadecimal behind `0x`, decimal otherwise.
pub open spec fn option_number(value: Seq<char>) -> Option<u32> {
    let number = if text::has_prefix(value, "0x"@) {
        let rest = value.skip(2);
        addresses::number_in(
            if rest.len() > 0 && rest[0] == '+' {
                rest.skip(1)
            } else {
                rest
            },
            true,
            u32::MAX as nat,
        )
    } else {
        text::parsed(value)
    };
    match number {
        Some(number) => if number <= u32::MAX {
            Some(number as u32)
        } else {
            None
        },
        None => None,
    }
}

fn parse_u32(value: &Vec<char>) -> (number: Option<u32>)
    ensures
        number == option_number(value@),
{
    proof {
        reveal_strlit("0x");
    }
    if value.len() >= 2 && value[0] == '0' && value[1] == 'x' {
        assert(value@.take(2) =~= "0x"@);
        let start: usize = if value.len() > 2 && value[2] == '+' {
            3
        } else {
            2
        };
        let mut digits: Vec<char> = Vec::new();
        for i in start..value.len()
            invariant
                start <= value@.len(),
                digits@ == value@.subrange(start as int, i as int),
        {
            digits.push(value[i]);
            assert(digits@ =~= value@.subrange(start as int, i + 1));
        }
        proof {
            let rest = value@.skip(2);
            if start == 3 {
                assert(digits@ =~= rest.skip(1));
            } else {
                assert(digits@ =~= rest);
            }
        }
        match read_number(&digits, true, u32::MAX as u64) {
            Some(number) => Some(number as u32),
            None => None,
        }
    } else {
        proof {
            if text::has_prefix(value@, "0x"@) {
                assert(value@.take(2)[0] == '0' && value@.take(2)[1] == 'x');
            }
        }
        let words = text_of(value);
        match parse_unsigned(words.as_str(), u32::MAX as u64) {
            Some(number) => Some(number as u32),
            None => None,
        }
    }
}

/// A query with one option more, or what is wrong with it.
#[verifier::opaque]
pub open spec fn with_option(query: QueryModel, keyword: Seq<char>, value: Seq<char>) -> Result<
    QueryModel,
    Seq<char>,
> {
    let twice = Err("route lookup option was specified more than once"@);
    if keyword == "from"@ {
        if query.source is Some {
            twice
        } else {
            match addresses::address_in(value) {
                Some(source) => Ok(RouteLookupQuery { source: Some(source), ..query }),
                None => Err("source must be an IPv4 or IPv6 address"@),
            }
        }
    } else if keyword == "iif"@ {
        if query.input_interface is Some {
            twice
        } else if !is_interface_name(value) {
            Err("iif is not a valid Linux interface name"@)
        } else {
            Ok(RouteLookupQuery { input_interface: Some(value), ..query })
        }
    } else if keyword == "oif"@ {
        if query.output_interface is Some {
            twice
        } else if !is_interface_name(value) {
            Err("oif is not a valid Linux interface name"@)
        } else {
            Ok(RouteLookupQuery { output_interface: Some(value), ..query })
        }
    } else if keyword == "mark"@ {
        if query.mark is Some {
            twice
        } else {
            match option_number(value) {
                Some(mark) => Ok(RouteLookupQuery { mark: Some(mark), ..query }),
                None => Err("route lookup numeric option is invalid"@),
            }
        }
    } else if keyword == "uid"@ {
        if query.uid is Some {
            twice
        } else {
            match option_number(value) {
                Some(uid) => Ok(RouteLookupQuery { uid: Some(uid), ..query }),
                None => Err("route lookup numeric option is invalid"@),
            }
        }
    } else if keyword == "tos"@ {
        if query.tos is Some {
            twice
        } else {
            match option_number(value) {
                Some(tos) => if tos <= 255 {
                    Ok(RouteLookupQuery { tos: Some(tos as u8), ..query })
                } else {
                    Err("tos must be between 0 and 255"@)
                },
                None => Err("route lookup numeric option is invalid"@),
            }
        }
    } else {
        Err("unknown route lookup option"@)
    }
}

/// The query with the first `n` options: a keyword and a value each, behind the
/// destination.
pub open spec fn options_upto(query: QueryModel, fields: Seq<Seq<char>>, n: int) -> Result<
    QueryModel,
    Seq<char>,
>
    decreases n,
{
    if n <= 0 {
        Ok(query)
    } else {
        match options_upto(query, fields, n - 1) {
            Ok(query) => with_option(query, fields[2 * n - 1], fields[2 * n]),
            Err(message) => Err(message),
        }
    }
}

/// A query that holds together: both addresses are of one family.
pub open spec fn one_family(query: QueryModel) -> Result<QueryModel, Seq<char>> {
    match query.source {
        Some(source) => if (source is V4) != (query.destination is V4) {
            Err("source and destination address families must match"@)
        } else {
            Ok(query)
        },
        None => Ok(query),
    }
}

/// The query that a text is, or what is wrong with it.
pub open spec fn query_in(typed: Seq<char>) -> Result<QueryModel, Seq<char>> {
    let input = text::trimmed(typed);
    let fields = text::words(input);
    if input.len() == 0 {
        Err("enter a destination IP address"@)
    } else if input.len() > MAX_LOOKUP_INPUT_BYTES || !is_ascii(input) {
        Err("route lookup input is too long or contains non-ASCII text"@)
    } else if fields.len() == 0 {
        Err("destination must be an IPv4 or IPv6 address"@)
    } else {
        match addresses::address_in(fields[0]) {
            None => Err("destination must be an IPv4 or IPv6 address"@),
            Some(destination) => {
                let query = RouteLookupQuery {
                    input,
                    destination,
                    source: None,
                    input_interface: None,
                    output_interface: None,
                    mark: None,
                    uid: None,
                    tos: None,
                };
                match options_upto(query, fields, (fields.len() - 1) / 2) {
                    Err(message) => Err(message),
                    Ok(query) => if fields.len() % 2 == 0 {
                        Err("route lookup option is missing a value"@)
                    } else {
                        one_family(query)
                    },
                }
            },
        }
    }
}

proof fn lemma_options_fail(query: QueryModel, fields: Seq<Seq<char>>, m: int, n: int)
    requires
        0 <= m <= n,
        options_upto(query, fields, m) is Err,
    ensures
        options_upto(query, fields, n) == options_upto(query, fields, m),
    decreases n - m,
{
    if m < n {
        lemma_options_fail(query, fields, m, n - 1);
    }
}

/// The answer to a query, as contracts speak of it.
pub open spec fn told(result: Result<RouteLookupQuery<String>, &'static str>) -> Result<
    QueryModel,
    Seq<char>,
> {
    match result {
        Ok(query) => Ok(query.deep_view()),
        Err(message) => Err(message@),
    }
}

fn add_option(query: RouteLookupQuery<String>, keyword: &Vec<char>, value: &Vec<char>) -> (result:
    Result<RouteLookupQuery<String>, &'static str>)
    ensures
        told(result) == with_option(query.deep_view(), keyword@, value@),
{
    reveal(with_option);
    let word = text_of(keyword);
    let mut query = query;
    if same_text(word.as_str(), "from") {
        if query.source.is_some() {
            return Err("route lookup option was specified more than once");
        }
        match read_address(value) {
            Some(source) => {
                query.source = Some(source);
            },
            None => {
                return Err("source must be an IPv4 or IPv6 address");
            },
        }
    } else if same_text(word.as_str(), "iif") {
        if query.input_interface.is_some() {
            return Err("route lookup option was specified more than once");
        }
        if !valid_interface_name(value) {
            return Err("iif is not a valid Linux interface name");
        }
        query.input_interface = Some(text_of(value));
    } else if same_text(word.as_str(), "oif") {
        if query.output_interface.is_some() {
            return Err("route lookup option was specified more than once");
        }
        if !valid_interface_name(value) {
            return Err("oif is not a valid Linux interface name");
        }
        query.output_interface = Some(text_of(value));
    } else if same_text(word.as_str(), "mark") {
        if query.mark.is_some() {
            return Err("route lookup option was specified more than once");
        }
        match parse_u32(value) {
            Some(mark) => {
                query.mark = Some(mark);
            },
            None => {
                return Err("route lookup numeric option is invalid");
            },
        }
    } else if same_text(word.as_str(), "uid") {
        if query.uid.is_some() {
            return Err("route lookup option was specified more than once");
        }
        match parse_u32(value) {
            Some(uid) => {
                query.uid = Some(uid);
            },
            None => {
                return Err("route lookup numeric option is invalid");
            },
        }
    } else if same_text(word.as_str(), "tos") {
        if query.tos.is_some() {
            return Err("route lookup option was specified more than once");
        }
        match parse_u32(value) {
            Some(tos) => {
                if tos > 255 {
                    return Err("tos must be between 0 and 255");
                }
                query.tos = Some(tos as u8);
            },
            None => {
                return Err("route lookup numeric option is invalid");
            },
        }
    } else {
        return Err("unknown route lookup option");
    }
    Ok(query)
}

/// Adds the options behind a destination, each a keyword with a value.
fn add_options(bare: RouteLookupQuery<String>, fields: &Vec<Vec<char>>) -> (result: Result<
    RouteLookupQuery<String>,
    &'static str,
>)
    requires
        fields@.len() > 0,
    ensures
        told(result) == options_upto(
            bare.deep_view(),
            fields.deep_view(),
            (fields@.len() - 1) / 2,
        ),
{
    let ghost start = bare.deep_view();
    let ghost all = fields.deep_view();
    let options: usize = (fields.len() - 1) / 2;
    let mut query = bare;
    for i in 0..options
        invariant
            start == bare.deep_view(),
            all == fields.deep_view(),
            2 * options < fields.len(),
            options == (fields@.len() - 1) / 2,
            options_upto(start, all, i as int) == Ok::<QueryModel, Seq<char>>(query.deep_view()),
    {
        let keyword = &fields[2 * i + 1];
        let value = &fields[2 * i + 2];
        assert(all[2 * i + 1] =~= keyword@);
        assert(all[2 * i + 2] =~= value@);
        match add_option(query, keyword, value) {
            Ok(more) => {
                query = more;
            },
            Err(message) => {
                proof {
                    lemma_options_fail(start, all, i + 1, options as int);
                }
                return Err(message);
            },
        }
    }
    Ok(query)
}

/// What the kernel is asked.
#[derive(Clone, Copy, PartialEq, Eq, Structural)]
pub struct RouteLookupRequest {
    pub destination: IpAddress,
    pub source: Option<IpAddress>,
    pub input_ifindex: Option<u32>,
    pub output_ifindex: Option<u32>,
    pub mark: Option<u32>,
    pub uid: Option<u32>,
    pub tos: Option<u8>,
}

/// The index of an interface that may be named, where the kernel says zero of a name
/// that it does not know.
pub open spec fn resolved(interface: Option<Seq<char>>, ifindex: u32) -> Result<
    Option<u32>,
    Seq<char>,
> {
    match interface {
        None => Ok(None),
        Some(name) => if ifindex == 0 {
            Err("interface "@ + name + " does not exist in this network namespace"@)
        } else {
            Ok(Some(ifindex))
        },
    }
}

fn resolve(interface: &Option<String>, ifindex: u32) -> (result: Result<Option<u32>, String>)
    ensures
        match result {
            Ok(index) => resolved(text::optional_text(*interface), ifindex) == Ok::<
                Option<u32>,
                Seq<char>,
            >(index),
            Err(message) => resolved(text::optional_text(*interface), ifindex) == Err::<
                Option<u32>,
                Seq<char>,
            >(message@),
        },
{
    match interface {
        None => Ok(None),
        Some(name) => if ifindex == 0 {
            let mut message = owned("interface ");
            message.append(name.as_str());
            message.append(" does not exist in this network namespace");
            Err(message)
        } else {
            Ok(Some(ifindex))
        },
    }
}

/// The request that a query becomes with the indices of the interfaces that it names.
pub open spec fn request_of(query: QueryModel, input_ifindex: u32, output_ifindex: u32) -> Result<
    RouteLookupRequest,
    Seq<char>,
> {
    match (
        resolved(query.input_interface, input_ifindex),
        resolved(query.output_interface, output_ifindex),
    ) {
        (Err(message), _) => Err(message),
        (Ok(_), Err(message)) => Err(message),
        (Ok(input), Ok(output)) => Ok(
            RouteLookupRequest {
                destination: query.destination,
                source: query.source,
                input_ifindex: input,
                output_ifindex: output,
                mark: query.mark,
                uid: query.uid,
                tos: query.tos,
            },
        ),
    }
}

impl RouteLookupQuery<String> {
    /// The query that a text is: a destination, and options behind it.
    pub fn parse(typed: &str) -> (result: Result<RouteLookupQuery<String>, &'static str>)
        ensures
            told(result) == query_in(typed@),
    {
        let input = trim(typed);
        if input.len() == 0 {
            return Err("enter a destination IP address");
        }
        if input.len() > MAX_LOOKUP_INPUT_BYTES || !all_ascii(&input) {
            return Err("route lookup input is too long or contains non-ASCII text");
        }
        let fields = split_words(&input);
        let ghost all = fields.deep_view();
        assert(all.len() == fields@.len());
        if fields.len() == 0 {
            return Err("destination must be an IPv4 or IPv6 address");
        }
        assert(all[0] =~= fields@[0]@);
        let destination = match read_address(&fields[0]) {
            Some(destination) => destination,
            None => {
                return Err("destination must be an IPv4 or IPv6 address");
            },
        };
        let bare = RouteLookupQuery {
            input: text_of(&input),
            destination,
            source: None,
            input_interface: None,
            output_interface: None,
            mark: None,
            uid: None,
            tos: None,
        };
        let query = match add_options(bare, &fields) {
            Ok(query) => query,
            Err(message) => {
                return Err(message);
            },
        };
        if fields.len() % 2 == 0 {
            return Err("route lookup option is missing a value");
        }
        if let Some(source) = query.source {
            if source.is_ipv4() != query.destination.is_ipv4() {
                return Err("source and destination address families must match");
            }
        }
        Ok(query)
    }

    /// The request that the query becomes with the indices of the interfaces that it
    /// names; an index is not looked at where none is named.
    pub fn request(&self, input_ifindex: u32, output_ifindex: u32) -> (result: Result<
        RouteLookupRequest,
        String,
    >)
        ensures
            match result {
                Ok(request) => request_of(self.deep_view(), input_ifindex, output_ifindex) == Ok::<
                    RouteLookupRequest,
                    Seq<char>,
                >(request),
                Err(message) => request_of(self.deep_view(), input_ifindex, output_ifindex)
                    == Err::<RouteLookupRequest, Seq<char>>(message@),
            },
    {
        let input_ifindex = match resolve(&self.input_interface, input_ifindex) {
            Ok(index) => index,
            Err(message) => {
                return Err(message);
            },
        };
        let output_ifindex = match resolve(&self.output_interface, output_ifindex) {
            Ok(index) => index,
            Err(message) => {
                return Err(message);
            },
        };
        Ok(
            RouteLookupRequest {
                destination: self.destination,
                source: self.source,
                input_ifindex,
                output_ifindex,
                mark: self.mark,
                uid: self.uid,
                tos: self.tos,
            },
        )
    }
}

/// A query that is accepted asks about one address family, and names only interfaces
/// that Linux takes.
pub proof fn accepted_queries_hold_together(typed: Seq<char>)
    ensures
        query_in(typed) matches Ok(query) ==> {
            &&& query.source matches Some(source) ==> (source is V4) == (query.destination is V4)
            &&& query.input_interface matches Some(name) ==> is_interface_name(name)
            &&& query.output_interface matches Some(name) ==> is_interface_name(name)
        },
{
    let input = text::trimmed(typed);
    let fields = text::words(input);
    if query_in(typed) is Ok {
        let start = RouteLookupQuery {
            input,
            destination: addresses::address_in(fields[0])->0,
            source: None,
            input_interface: None,
            output_interface: None,
            mark: None,
            uid: None,
            tos: None,
        };
        lemma_names_hold(start, fields, (fields.len() - 1) / 2);
    }
}

proof fn lemma_names_hold(start: QueryModel, fields: Seq<Seq<char>>, n: int)
    requires
        start.input_interface is None,
        start.output_interface is None,
    ensures
        options_upto(start, fields, n) matches Ok(query) ==> {
            &&& query.input_interface matches Some(name) ==> is_interface_name(name)
            &&& query.output_interface matches Some(name) ==> is_interface_name(name)
        },
    decreases n,
{
    reveal(with_option);
    if n > 0 {
        lemma_names_hold(start, fields, n - 1);
    }
}

} // verus!
