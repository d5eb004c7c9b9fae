use vstd::prelude::*;
use vstd::string::StringExecFns;
use crate::text::text_of;

verus! {

/// One mailbox of an address list: the address, and the name written
/// before it where there is one.
#[derive(Clone, Debug, PartialEq)]
pub struct Mailbox {
    pub addr: String,
    pub display_name: Option<String>,
}

/// One entry of an address list: a single mailbox, or the mailboxes of
/// a named group.
#[derive(Clone, Debug, PartialEq)]
pub enum Address {
    Single(Mailbox),
    Group(Vec<Mailbox>),
}

pub struct MailboxView {
    pub addr: Seq<char>,
    pub display_name: Option<Seq<char>>,
}

pub enum AddressView {
    Single(MailboxView),
    Group(Seq<MailboxView>),
}

impl View for Mailbox {
    type V = MailboxView;

    open spec fn view(&self) -> MailboxView {
        MailboxView { addr: self.addr@, display_name: text_of(self.display_name) }
    }
}

impl DeepView for Mailbox {
    type V = MailboxView;

    open spec fn deep_view(&self) -> MailboxView {
        self@
    }
}

impl View for Address {
    type V = AddressView;

    open spec fn view(&self) -> AddressView {
        match self {
            Address::Single(mailbox) => AddressView::Single(mailbox@),
            Address::Group(mailboxes) => AddressView::Group(mailboxes.deep_view()),
        }
    }
}

impl DeepView for Address {
    type V = AddressView;

    open spec fn deep_view(&self) -> AddressView {
        self@
    }
}

/// The entries that `mailparse::addrparse` reads in an address list,
/// `None` where it reports an error.
pub uninterp spec fn addresses_read(list: Seq<char>) -> Option<Seq<AddressView>>;

/// Calls `mailparse::addrparse` and copies its entries out, the address
/// and the display name of each mailbox as they stand. The contract
/// claims that the same text always reads as the same entries.
#[verifier::external_body]
fn read_addresses(list: &str) -> (r: Result<Vec<Address>, mailparse::MailParseError>)
    ensures
        match r {
            Ok(entries) => addresses_read(list@) == Some(entries.deep_view()),
            Err(_) => addresses_read(list@) is None,
        },
{
    let mailbox = |s: mailparse::SingleInfo| Mailbox { addr: s.addr, display_name: s.display_name };
    Ok(mailparse::addrparse(list)?.into_inner().into_iter().map(|entry| match entry {
        mailparse::MailAddr::Single(single) => Address::Single(mailbox(single)),
        mailparse::MailAddr::Group(group) => Address::Group(
            group.addrs.into_iter().map(mailbox).collect(),
        ),
    }).collect())
}

/// A mailbox as a pair: its address, then its display name.
pub open spec fn pair_of(mailbox: MailboxView) -> (Seq<char>, Option<Seq<char>>) {
    (mailbox.addr, mailbox.display_name)
}

/// The mailboxes of one entry, as pairs.
pub open spec fn pairs_of(entry: AddressView) -> Seq<(Seq<char>, Option<Seq<char>>)> {
    match entry {
        AddressView::Single(mailbox) => seq![pair_of(mailbox)],
        AddressView::Group(mailboxes) => Seq::new(mailboxes.len(), |i: int| pair_of(mailboxes[i])),
    }
}

/// Every mailbox of an address list in the order in which it is
/// written, the members of a group in the place of the group.
pub open spec fn flattened(entries: Seq<AddressView>) -> Seq<(Seq<char>, Option<Seq<char>>)>
    decreases entries.len(),
{
    if entries.len() == 0 {
        Seq::empty()
    } else {
        flattened(entries.drop_last()) + pairs_of(entries.last())
    }
}

/// A list of pairs of an address and a display name, as sequences of
/// characters.
pub open spec fn pairs_view(pairs: Seq<(String, Option<String>)>) -> Seq<
    (Seq<char>, Option<Seq<char>>),
> {
    Seq::new(pairs.len(), |i: int| (pairs[i].0@, text_of(pairs[i].1)))
}

/// Lays the entries of an address list out flat.
pub fn flatten_addresses(entries: Vec<Address>) -> (r: Vec<(String, Option<String>)>)
    ensures
        pairs_view(r@) == flattened(entries.deep_view()),
{
    let mut out: Vec<(String, Option<String>)> = Vec::new();
    let mut i: usize = 0;
    assert(entries.deep_view().take(0) =~= Seq::<AddressView>::empty());
    assert(pairs_view(out@) =~= Seq::<(Seq<char>, Option<Seq<char>>)>::empty());
    while i < entries.len()
        invariant
            i <= entries.len(),
            pairs_view(out@) == flattened(entries.deep_view().take(i as int)),
        decreases entries.len() - i,
    {
        proof {
            assert(entries.deep_view().take(i + 1).drop_last() == entries.deep_view().take(i as int));
            assert(entries.deep_view().take(i + 1).last() == entries[i as int]@);
        }
        let ghost before = pairs_view(out@);
        match &entries[i] {
            Address::Single(mailbox) => {
                out.push((mailbox.addr.clone(), crate::text::duplicate(&mailbox.display_name)));
                assert(pairs_view(out@) =~= before + pairs_of(entries[i as int]@));
            },
            Address::Group(mailboxes) => {
                let mut j: usize = 0;
                while j < mailboxes.len()
                    invariant
                        j <= mailboxes.len(),
                        pairs_view(out@) == before + pairs_of(
                            AddressView::Group(mailboxes.deep_view()),
                        ).take(j as int),
                    decreases mailboxes.len() - j,
                {
                    let ghost inner = pairs_view(out@);
                    out.push(
                        (mailboxes[j].addr.clone(), crate::text::duplicate(&mailboxes[j].display_name)),
                    );
                    assert(pairs_view(out@) =~= inner.push(pair_of(mailboxes[j as int]@)));
                    assert(pairs_of(AddressView::Group(mailboxes.deep_view())).take(j + 1)
                        =~= pairs_of(AddressView::Group(mailboxes.deep_view())).take(j as int).push(
                        pair_of(mailboxes[j as int]@),
                    ));
                    j = j + 1;
                }
                assert(pairs_of(AddressView::Group(mailboxes.deep_view())).take(j as int)
                    == pairs_of(AddressView::Group(mailboxes.deep_view())));
            },
        }
        i = i + 1;
    }
    assert(entries.deep_view().take(i as int) == entries.deep_view());
    out
}

/// The mailboxes that an address list names, each as its address and its
/// display name. A list that cannot be read names none.
pub fn parse_emails(emails: &str) -> (r: Vec<(String, Option<String>)>)
    ensures
        pairs_view(r@) == match addresses_read(emails@) {
            Some(entries) => flattened(entries),
            None => Seq::empty(),
        },
{
    match read_addresses(emails) {
        Ok(entries) => flatten_addresses(entries),
        Err(_) => {
            let out: Vec<(String, Option<String>)> = Vec::new();
            assert(pairs_view(out@) =~= Seq::<(Seq<char>, Option<Seq<char>>)>::empty());
            out
        },
    }
}

/// How a mailbox is called: by its display name or, where it has
/// none, by its address.
pub open spec fn called(pair: (Seq<char>, Option<Seq<char>>)) -> Seq<char> {
    match pair.1 {
        Some(name) => name,
        None => pair.0,
    }
}

/// How the sender of a message is called: as the first mailbox of its
/// `From` field or, where the field names no mailbox, by the field as
/// it is written.
pub open spec fn sender_called(from: Seq<char>) -> Seq<char> {
    match addresses_read(from) {
        Some(entries) => if flattened(entries).len() > 0 {
            called(flattened(entries)[0])
        } else {
            from
        },
        None => from,
    }
}

/// The names of mailboxes, with a comma and a space between one and the
/// next.
pub open spec fn joined_names(pairs: Seq<(Seq<char>, Option<Seq<char>>)>) -> Seq<char>
    decreases pairs.len(),
{
    if pairs.len() == 0 {
        Seq::empty()
    } else if pairs.len() == 1 {
        called(pairs[0])
    } else {
        joined_names(pairs.drop_last()) + ", "@ + called(pairs.last())
    }
}

/// How the recipients of a message are called, one after the other.
pub open spec fn recipients_called(to: Seq<char>) -> Seq<char> {
    match addresses_read(to) {
        Some(entries) => joined_names(flattened(entries)),
        None => Seq::empty(),
    }
}

/// How a mailbox is called.
fn name_of(pair: &(String, Option<String>)) -> (r: String)
    ensures
        r@ == called((pair.0@, text_of(pair.1))),
{
    match &pair.1 {
        Some(name) => name.clone(),
        None => pair.0.clone(),
    }
}

/// How the sender of a message is called, given its `From` field.
pub fn sender_name(from: &str) -> (r: String)
    ensures
        r@ == sender_called(from@),
{
    let pairs = parse_emails(from);
    assert(pairs_view(pairs@).len() == pairs.len());
    if pairs.len() > 0 {
        assert(pairs_view(pairs@)[0] == (pairs@[0].0@, text_of(pairs@[0].1)));
        name_of(&pairs[0])
    } else {
        from.to_owned()
    }
}

/// How the recipients of a message are called, given its `To` field.
pub fn recipient_names(to: &str) -> (r: String)
    ensures
        r@ == recipients_called(to@),
{
    let pairs = parse_emails(to);
    let mut out = String::new();
    let mut i: usize = 0;
    assert(pairs_view(pairs@).take(0) =~= Seq::<(Seq<char>, Option<Seq<char>>)>::empty());
    while i < pairs.len()
        invariant
            i <= pairs.len(),
            out@ == joined_names(pairs_view(pairs@).take(i as int)),
        decreases pairs.len() - i,
    {
        proof {
            let upto = pairs_view(pairs@).take(i + 1);
            assert(upto.drop_last() == pairs_view(pairs@).take(i as int));
            assert(upto.last() == (pairs@[i as int].0@, text_of(pairs@[i as int].1)));
            if i > 0 {
                assert(upto.len() > 1);
            } else {
                assert(upto[0] == upto.last());
            }
        }
        if i > 0 {
            out.append(", ");
        }
        let name = name_of(&pairs[i]);
        out.append(name.as_str());
        i = i + 1;
    }
    assert(pairs_view(pairs@).take(i as int) == pairs_view(pairs@));
    out
}

} // verus!
