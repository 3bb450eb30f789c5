//! Folder names: plain ones, numbered ones (`007_name`), and the codec
//! between a raw name and its parts.

use crate::digits;
use crate::digits::DigitsError;
use vstd::prelude::*;
use vstd::string::StrSliceExecFns;
use vstd::string::StringExecFns;

verus! {

/// What a numbered name holds: the number, the count of characters its
/// digits take up, and the text after the first `_`.
pub struct NumberedName {
    pub value: nat,
    pub width: nat,
    pub remainder: Seq<char>,
}

/// What a folder name is: a plain text, or a number with a remainder.
pub enum NameShape {
    Normal(Seq<char>),
    Numbered(NumberedName),
}

/// What a rename instruction asks for: `target` gets the name `new_name`.
pub struct RenameOp {
    pub target: NameShape,
    pub new_name: NumberedName,
}

impl NumberedName {
    /// The digits of the number never need more room than `width`.
    pub open spec fn wf(self) -> bool {
        digits::digit_count(self.value) <= self.width
    }

    /// The name as written with at least `width` digit characters.
    pub open spec fn text_at(self, width: nat) -> Seq<char> {
        digits::zero_padded(self.value, width) + seq!['_'] + self.remainder
    }

    /// The name as written with its own width.
    pub open spec fn text(self) -> Seq<char> {
        self.text_at(self.width)
    }

    /// The same remainder under another number.
    pub open spec fn renumbered(self, value: nat, width: nat) -> NumberedName {
        NumberedName { value, width, remainder: self.remainder }
    }
}

impl NameShape {
    /// The raw name.
    pub open spec fn text(self) -> Seq<char> {
        match self {
            NameShape::Normal(raw) => raw,
            NameShape::Numbered(n) => n.text(),
        }
    }

    /// The raw name with the digits of a numbered name padded to `width`,
    /// where one is given.
    pub open spec fn rendered(self, width: Option<nat>) -> Seq<char> {
        match self {
            NameShape::Normal(raw) => raw,
            NameShape::Numbered(n) => match width {
                Some(w) => n.text_at(w),
                None => n.text(),
            },
        }
    }

    /// What is left of the name once a leading number and its `_` are
    /// taken off.
    pub open spec fn remainder(self) -> Seq<char> {
        match self {
            NameShape::Normal(raw) => parse_name(raw).bare(),
            NameShape::Numbered(n) => n.remainder,
        }
    }

    /// The text a shape holds besides its number: all of a plain name.
    pub open spec fn bare(self) -> Seq<char> {
        match self {
            NameShape::Normal(raw) => raw,
            NameShape::Numbered(n) => n.remainder,
        }
    }

    /// A plain name is always well formed; a numbered one as its number is.
    pub open spec fn wf(self) -> bool {
        match self {
            NameShape::Normal(_) => true,
            NameShape::Numbered(n) => n.wf(),
        }
    }
}

impl RenameOp {
    /// The name the entry has now.
    pub open spec fn from_text(self) -> Seq<char> {
        self.target.text()
    }

    /// The name the entry is to get.
    pub open spec fn to_text(self) -> Seq<char> {
        self.new_name.text()
    }
}

/// Whether `k` is where the head of `s` ends: at the first `_`, or at the
/// end of `s` where it has none.
pub open spec fn is_head_end(s: Seq<char>, k: int) -> bool {
    &&& 0 <= k <= s.len()
    &&& k < s.len() ==> s[k] == '_'
    &&& forall|j: int| 0 <= j < k ==> s[j] != '_'
}

/// The number of characters before the first `_` of `s`; all of them where
/// `s` has no `_`.
pub open spec fn head_len(s: Seq<char>) -> int {
    choose|k: int| is_head_end(s, k)
}

/// Why a raw name does not start with a number.
#[derive(Debug, Clone, Copy, PartialEq, Eq, Structural)]
pub enum HeadError {
    /// The name has no `_`, so nothing separates a number from a remainder.
    NoSeparator,
    /// The text before the first `_` is not a number that fits.
    NotANumber(DigitsError),
}

/// The number at the head of `raw` with the count of its characters, or why
/// there is none.
pub open spec fn first_number(raw: Seq<char>) -> Result<(nat, nat), HeadError> {
    let k = head_len(raw);
    if k >= raw.len() {
        Err(HeadError::NoSeparator)
    } else {
        match digits::number_read(raw.take(k)) {
            Ok(v) => Ok((v as nat, k as nat)),
            Err(e) => Err(HeadError::NotANumber(e)),
        }
    }
}

/// The shape of a raw name. It is numbered where the text before its first
/// `_` is a non-empty run of digits that fits a `usize`; the remainder is
/// then all that follows that `_`. Any other name is plain, unchanged.
pub open spec fn parse_name(raw: Seq<char>) -> NameShape {
    match first_number(raw) {
        Ok((value, width)) => NameShape::Numbered(
            NumberedName { value, width, remainder: raw.skip(width as int + 1) },
        ),
        Err(_) => NameShape::Normal(raw),
    }
}

/// The head of a name ends at one place only.
pub proof fn lemma_head_len(s: Seq<char>, k: int)
    requires
        is_head_end(s, k),
    ensures
        head_len(s) == k,
{
    let h = head_len(s);
    assert(is_head_end(s, h));
    if h < k {
        assert(s[h] != '_');
    } else if k < h {
        assert(s[k] != '_');
    }
}

/// Every name has a head.
pub proof fn lemma_head_exists(s: Seq<char>)
    ensures
        is_head_end(s, head_len(s)),
    decreases s.len(),
{
    if s.len() == 0 {
        assert(is_head_end(s, 0));
    } else if s[0] == '_' {
        assert(is_head_end(s, 0));
    } else {
        let t = s.skip(1);
        lemma_head_exists(t);
        let k = head_len(t);
        assert forall|j: int| 0 <= j < k + 1 implies s[j] != '_' by {
            if j > 0 {
                assert(t[j - 1] == s[j]);
            }
        }
        if k < t.len() {
            assert(t[k] == s[k + 1]);
        }
        assert(is_head_end(s, k + 1));
    }
}

/// A numbered name starts with its padded number, then `_`.
pub proof fn lemma_numbered_text_head(n: NumberedName, width: nat)
    ensures
        is_head_end(n.text_at(width), digits::zero_padded(n.value, width).len() as int),
        n.text_at(width).take(digits::zero_padded(n.value, width).len() as int)
            == digits::zero_padded(n.value, width),
        n.text_at(width).skip(digits::zero_padded(n.value, width).len() as int + 1)
            == n.remainder,
{
    let head = digits::zero_padded(n.value, width);
    let text = n.text_at(width);
    digits::lemma_number_of_zero_padded(n.value, width);
    assert forall|j: int| 0 <= j < head.len() implies text[j] != '_' by {
        assert(text[j] == head[j]);
        digits::lemma_digit_value(head[j]);
    }
    assert(text[head.len() as int] == '_');
    assert(text.take(head.len() as int) =~= head);
    assert(text.skip(head.len() as int + 1) =~= n.remainder);
}

/// Parsing the text of a well-formed numbered name gives the name back,
/// where its number fits the machine.
pub proof fn lemma_parse_text(n: NumberedName)
    requires
        n.wf(),
        n.value <= usize::MAX,
    ensures
        parse_name(n.text()) == NameShape::Numbered(n),
{
    lemma_numbered_text_head(n, n.width);
    digits::lemma_number_of_zero_padded(n.value, n.width);
    digits::lemma_decimal_shape(n.value);
    let head = digits::zero_padded(n.value, n.width);
    lemma_head_len(n.text(), head.len() as int);
    assert(head.len() == n.width);
}

/// Writing a parsed name with the width of its own head gives the raw name
/// back: for every raw name.
pub proof fn lemma_render_parse(raw: Seq<char>)
    ensures
        parse_name(raw).wf(),
        parse_name(raw).text() == raw,
        parse_name(raw) matches NameShape::Numbered(n) ==> parse_name(raw).rendered(
            Some(n.width),
        ) == raw,
        parse_name(raw) is Normal ==> forall|w: Option<nat>| parse_name(raw).rendered(w) == raw,
{
    lemma_head_exists(raw);
    match parse_name(raw) {
        NameShape::Normal(_) => {},
        NameShape::Numbered(n) => {
            let k = head_len(raw);
            let head = raw.take(k);
            digits::lemma_zero_padded_number_of(head);
            assert(n.text() =~= raw);
        },
    }
}

/// The number in front of a folder name: its value, and the count of
/// characters that its digits take up once padded with zeros.
///
/// The width is never less than the digits of the value need.
#[derive(Debug, Clone, Copy, PartialEq, Eq)]
pub struct FolderNumber(usize, usize);

impl FolderNumber {
    #[verifier::type_invariant]
    spec fn holds_digits(self) -> bool {
        digits::digit_count(self.0 as nat) <= self.1
    }

    /// The number itself.
    pub closed spec fn value(self) -> nat {
        self.0 as nat
    }

    /// The count of digit characters, leading zeros included.
    pub closed spec fn width(self) -> nat {
        self.1 as nat
    }

    /// A number padded to `width` characters, or to as many as its digits
    /// need where `width` is too small for them.
    pub fn new(value: usize, width: usize) -> (number: Self)
        ensures
            number.value() == value,
            number.width() == if width >= digits::digit_count(value as nat) {
                width as nat
            } else {
                digits::digit_count(value as nat)
            },
    {
        let needed: usize = digits::count_digits(value as u128);
        if width >= needed {
            FolderNumber(value, width)
        } else {
            FolderNumber(value, needed)
        }
    }

    /// The number itself.
    pub fn get_value(&self) -> (value: usize)
        ensures
            value == self.value(),
    {
        self.0
    }

    /// The count of digit characters; the digits of the value fit in it.
    pub fn get_width(&self) -> (width: usize)
        ensures
            width == self.width(),
            digits::digit_count(self.value()) <= width,
    {
        proof {
            use_type_invariant(self);
        }
        self.1
    }
}

/// The name of a folder, as the directory holds it.
#[derive(Debug, PartialEq, Eq)]
pub struct FolderName(String);

impl View for FolderName {
    type V = Seq<char>;

    closed spec fn view(&self) -> Seq<char> {
        self.0@
    }
}

impl Clone for FolderName {
    fn clone(&self) -> (copy: Self)
        ensures
            copy == *self,
    {
        FolderName(self.0.clone())
    }
}

/// A folder name without its number: what follows the first `_` of a
/// numbered name.
#[derive(Debug, PartialEq, Eq)]
pub struct FolderNameNormalized(String);

impl View for FolderNameNormalized {
    type V = Seq<char>;

    closed spec fn view(&self) -> Seq<char> {
        self.0@
    }
}

impl Clone for FolderNameNormalized {
    fn clone(&self) -> (copy: Self)
        ensures
            copy == *self,
    {
        FolderNameNormalized(self.0.clone())
    }
}

impl FolderNameNormalized {
    /// Wraps the text of a remainder.
    pub fn new(text: String) -> (name: Self)
        ensures
            name@ == text@,
    {
        FolderNameNormalized(text)
    }

    /// The text of the remainder.
    pub fn as_str(&self) -> (text: &str)
        ensures
            text@ == self@,
    {
        self.0.as_str()
    }
}

/// A folder name that starts with a number: `007_name`.
#[derive(Debug, PartialEq, Eq)]
pub struct NumberedFolderName {
    number: FolderNumber,
    normalized_name: FolderNameNormalized,
}

impl View for NumberedFolderName {
    type V = NumberedName;

    closed spec fn view(&self) -> NumberedName {
        NumberedName {
            value: self.number.value(),
            width: self.number.width(),
            remainder: self.normalized_name@,
        }
    }
}

impl Clone for NumberedFolderName {
    fn clone(&self) -> (copy: Self)
        ensures
            copy == *self,
    {
        NumberedFolderName {
            number: self.number,
            normalized_name: self.normalized_name.clone(),
        }
    }
}

/// A folder name of either shape.
#[derive(Debug, PartialEq, Eq)]
pub enum FolderNameVariant {
    Normal(FolderName),
    Numbered(NumberedFolderName),
}

impl View for FolderNameVariant {
    type V = NameShape;

    open spec fn view(&self) -> NameShape {
        match self {
            FolderNameVariant::Normal(name) => NameShape::Normal(name@),
            FolderNameVariant::Numbered(name) => NameShape::Numbered(name@),
        }
    }
}

impl Clone for FolderNameVariant {
    fn clone(&self) -> (copy: Self)
        ensures
            copy == *self,
    {
        match self {
            FolderNameVariant::Normal(name) => FolderNameVariant::Normal(name.clone()),
            FolderNameVariant::Numbered(name) => FolderNameVariant::Numbered(name.clone()),
        }
    }
}

/// The instruction to give the folder `target` the name `new_name`.
#[derive(Debug, PartialEq, Eq)]
pub struct FolderRenameInstruction {
    target: FolderNameVariant,
    new_name: NumberedFolderName,
}

impl View for FolderRenameInstruction {
    type V = RenameOp;

    closed spec fn view(&self) -> RenameOp {
        RenameOp { target: self.target@, new_name: self.new_name@ }
    }
}

impl Clone for FolderRenameInstruction {
    fn clone(&self) -> (copy: Self)
        ensures
            copy == *self,
    {
        FolderRenameInstruction { target: self.target.clone(), new_name: self.new_name.clone() }
    }
}

/// Where the head of a raw name ends, how long the name is, and the number
/// that the head writes.
fn scan_head(raw: &str) -> (r: (Result<usize, HeadError>, usize, usize))
    ensures
        r.1 == head_len(raw@),
        r.2 == raw@.len(),
        match r.0 {
            Ok(v) => first_number(raw@) == Ok::<(nat, nat), HeadError>((v as nat, r.1 as nat)),
            Err(e) => first_number(raw@) == Err::<(nat, nat), HeadError>(e),
        },
{
    let chars = digits::chars_of(raw);
    let len: usize = chars.len();
    let mut k: usize = 0;
    while k < len && chars[k] != '_'
        invariant
            k <= len == chars.len(),
            forall|j: int| 0 <= j < k ==> chars@[j] != '_',
        decreases len - k,
    {
        k = k + 1;
    }
    proof {
        lemma_head_len(raw@, k as int);
    }
    if k == len {
        (Err(HeadError::NoSeparator), k, len)
    } else {
        match digits::read_number(&chars, k) {
            Ok(v) => (Ok(v), k, len),
            Err(e) => (Err(HeadError::NotANumber(e)), k, len),
        }
    }
}

impl FolderName {
    /// Wraps a raw name.
    pub fn new(name: String) -> (folder: Self)
        ensures
            folder@ == name@,
    {
        FolderName(name)
    }

    /// The raw name.
    pub fn as_str(&self) -> (text: &str)
        ensures
            text@ == self@,
    {
        self.0.as_str()
    }

    /// The raw name, given away.
    pub fn into_string(self) -> (text: String)
        ensures
            text@ == self@,
    {
        self.0
    }

    /// The name itself.
    pub fn get_name(&self) -> (name: FolderName)
        ensures
            name@ == self@,
    {
        self.clone()
    }

    /// The number that the name starts with, or why it starts with none.
    ///
    /// The number is the text before the first `_`, which must be there,
    /// and be made of digits only, at least one, that fit a `usize`.
    pub fn get_first_number(&self) -> (r: Result<FolderNumber, HeadError>)
        ensures
            match r {
                Ok(number) => first_number(self@) == Ok::<(nat, nat), HeadError>(
                    (number.value(), number.width()),
                ),
                Err(e) => first_number(self@) == Err::<(nat, nat), HeadError>(e),
            },
    {
        let (head, k, _len) = scan_head(self.0.as_str());
        match head {
            Ok(v) => {
                proof {
                    lemma_head_exists(self@);
                    digits::lemma_zero_padded_number_of(self@.take(k as int));
                }
                Ok(FolderNumber::new(v, k))
            },
            Err(e) => Err(e),
        }
    }

    /// The name without its number: what follows the first `_` where the
    /// name starts with a number, and the whole name where it does not.
    pub fn get_remaining_name(&self) -> (rest: FolderNameNormalized)
        ensures
            rest@ == parse_name(self@).bare(),
    {
        let (head, k, len) = scan_head(self.0.as_str());
        match head {
            Ok(_) => {
                let rest = self.0.as_str().substring_char(k + 1, len);
                FolderNameNormalized(String::from_str(rest))
            },
            Err(_) => FolderNameNormalized(self.0.clone()),
        }
    }

    /// The numbered name that this raw name writes, if it writes one.
    pub fn try_into(self) -> (r: Result<NumberedFolderName, HeadError>)
        ensures
            match r {
                Ok(name) => parse_name(self@) == NameShape::Numbered(name@),
                Err(e) => first_number(self@) == Err::<(nat, nat), HeadError>(e),
            },
    {
        match self.get_first_number() {
            Ok(number) => {
                let normalized_name = self.get_remaining_name();
                Ok(NumberedFolderName { number, normalized_name })
            },
            Err(e) => Err(e),
        }
    }

    /// The shape of this raw name: numbered where it starts with a number
    /// and a `_`, plain otherwise.
    pub fn classify(self) -> (shape: FolderNameVariant)
        ensures
            shape@ == parse_name(self@),
    {
        match self.get_first_number() {
            Ok(number) => {
                let normalized_name = self.get_remaining_name();
                FolderNameVariant::Numbered(NumberedFolderName { number, normalized_name })
            },
            Err(_) => FolderNameVariant::Normal(self),
        }
    }

    /// The instruction that gives this folder the number `number`, in front
    /// of what its name holds besides a number of its own.
    pub fn numbering(&self, number: FolderNumber) -> (instruction: FolderRenameInstruction)
        ensures
            instruction@ == (RenameOp {
                target: NameShape::Normal(self@),
                new_name: NumberedName {
                    value: number.value(),
                    width: number.width(),
                    remainder: parse_name(self@).bare(),
                },
            }),
    {
        let numbered = NumberedFolderName { number, normalized_name: self.get_remaining_name() };
        FolderRenameInstruction {
            target: FolderNameVariant::Normal(self.clone()),
            new_name: numbered,
        }
    }
}

impl NumberedFolderName {
    /// A numbered name from its parts.
    pub fn new(number: FolderNumber, normalized_name: FolderNameNormalized) -> (name: Self)
        ensures
            name@ == (NumberedName {
                value: number.value(),
                width: number.width(),
                remainder: normalized_name@,
            }),
            name@.wf(),
    {
        let _width: usize = number.get_width();
        NumberedFolderName { number, normalized_name }
    }

    /// The raw name: the number padded to its width, `_`, the remainder.
    pub fn get_name(&self) -> (name: FolderName)
        ensures
            name@ == self@.text(),
    {
        FolderName(self.render_at(self.number.get_width()))
    }

    /// The raw name with the number padded to `width` characters, or to as
    /// many as its digits need where `width` is too small for them.
    pub fn render_at(&self, width: usize) -> (text: String)
        ensures
            text@ == self@.text_at(width as nat),
    {
        let mut text = digits::zero_padded_string(self.number.get_value(), width);
        text.append("_");
        text.append(self.normalized_name.as_str());
        proof {
            reveal_strlit("_");
            assert(text@ =~= self@.text_at(width as nat));
        }
        text
    }

    /// The instruction that gives this folder the number `number` in place
    /// of its own.
    pub fn numbering(&self, number: FolderNumber) -> (instruction: FolderRenameInstruction)
        ensures
            instruction@ == (RenameOp {
                target: NameShape::Numbered(self@),
                new_name: self@.renumbered(number.value(), number.width()),
            }),
    {
        let numbered = NumberedFolderName { number, normalized_name: self.normalized_name.clone() };
        FolderRenameInstruction {
            target: FolderNameVariant::Numbered(self.clone()),
            new_name: numbered,
        }
    }

    /// The name without its number.
    pub fn get_remaining_name(&self) -> (rest: FolderNameNormalized)
        ensures
            rest@ == self@.remainder,
    {
        self.normalized_name.clone()
    }

    /// The number of the name; a numbered name always has one.
    pub fn get_first_number(&self) -> (r: Result<FolderNumber, HeadError>)
        ensures
            r matches Ok(number) && number.value() == self@.value && number.width()
                == self@.width,
    {
        Ok(self.number)
    }

    /// Whether `other` is the same name: number, width and remainder.
    pub fn same_as(&self, other: &NumberedFolderName) -> (same: bool)
        ensures
            same == (self@ == other@),
    {
        let same_text: bool = self.normalized_name.0 == other.normalized_name.0;
        proof {
            if self.normalized_name@ == other.normalized_name@ {
                assert(self@.remainder =~= other@.remainder);
            }
        }
        self.number.0 == other.number.0 && self.number.1 == other.number.1 && same_text
    }

    /// The number of the name.
    pub fn number(&self) -> (number: FolderNumber)
        ensures
            number.value() == self@.value,
            number.width() == self@.width,
            self@.wf(),
    {
        let _width: usize = self.number.get_width();
        self.number
    }
}

impl FolderNameVariant {
    /// The shape of a raw name: numbered where the text before its first
    /// `_` is a non-empty run of digits that fits a `usize`, plain
    /// otherwise. No name is refused.
    pub fn parse(raw: &str) -> (shape: Self)
        ensures
            shape@ == parse_name(raw@),
    {
        FolderName(String::from_str(raw)).classify()
    }

    /// The raw name of this shape. The digits of a numbered name are padded
    /// to `width_override` characters where one is given, else to the
    /// name's own width, and never cut; a plain name comes back unchanged.
    pub fn render(&self, width_override: Option<usize>) -> (text: String)
        ensures
            text@ == self@.rendered(
                match width_override {
                    Some(w) => Some(w as nat),
                    None => None,
                },
            ),
    {
        match self {
            FolderNameVariant::Normal(name) => name.0.clone(),
            FolderNameVariant::Numbered(name) => match width_override {
                Some(w) => name.render_at(w),
                None => name.render_at(name.number.get_width()),
            },
        }
    }

    /// The raw name of this shape.
    pub fn get_name(&self) -> (name: FolderName)
        ensures
            name@ == self@.text(),
    {
        match self {
            FolderNameVariant::Normal(name) => name.get_name(),
            FolderNameVariant::Numbered(name) => name.get_name(),
        }
    }

    /// The instruction that gives this folder the number `number`.
    pub fn numbering(&self, number: FolderNumber) -> (instruction: FolderRenameInstruction)
        ensures
            instruction@ == (RenameOp {
                target: self@,
                new_name: NumberedName {
                    value: number.value(),
                    width: number.width(),
                    remainder: self@.remainder(),
                },
            }),
    {
        match self {
            FolderNameVariant::Normal(name) => name.numbering(number),
            FolderNameVariant::Numbered(name) => name.numbering(number),
        }
    }
}

impl FolderRenameInstruction {
    /// The instruction to give `target` the name `new_name`.
    pub fn new(target: FolderNameVariant, new_name: NumberedFolderName) -> (instruction: Self)
        ensures
            instruction@ == (RenameOp { target: target@, new_name: new_name@ }),
    {
        FolderRenameInstruction { target, new_name }
    }

    /// The folder to rename.
    pub fn target(&self) -> (target: &FolderNameVariant)
        ensures
            target@ == self@.target,
    {
        &self.target
    }

    /// The name it is to get.
    pub fn new_name(&self) -> (name: &NumberedFolderName)
        ensures
            name@ == self@.new_name,
    {
        &self.new_name
    }

    /// The raw name that the folder has now.
    pub fn from_name(&self) -> (name: String)
        ensures
            name@ == self@.from_text(),
    {
        self.target.render(None)
    }

    /// The raw name that the folder is to get.
    pub fn to_name(&self) -> (name: String)
        ensures
            name@ == self@.to_text(),
    {
        self.new_name.render_at(self.new_name.number.get_width())
    }
}

/// The rank that a folder is to get.
#[derive(Debug, Clone, Copy, PartialEq, Eq)]
pub struct NumberingNumber(pub usize);

/// The folders of one directory.
#[derive(Debug, PartialEq, Eq)]
pub struct FolderList(pub Vec<FolderNameVariant>);

impl View for FolderList {
    type V = Seq<NameShape>;

    open spec fn view(&self) -> Seq<NameShape> {
        self.0@.map_values(|name: FolderNameVariant| name@)
    }
}

/// What each numbered folder name of a list holds.
pub open spec fn names_view(names: Seq<NumberedFolderName>) -> Seq<NumberedName> {
    names.map_values(|name: NumberedFolderName| name@)
}

/// What each instruction of a plan asks for.
pub open spec fn plan_view(plan: Seq<FolderRenameInstruction>) -> Seq<RenameOp> {
    plan.map_values(|op: FolderRenameInstruction| op@)
}

/// The shapes of `names`, in their order.
pub open spec fn parsed(names: Seq<String>) -> Seq<NameShape> {
    names.map_values(|name: String| parse_name(name@))
}

impl FolderList {
    /// The folders of a directory that lists `names`, each name with its
    /// shape.
    pub fn from_names(names: &Vec<String>) -> (list: FolderList)
        ensures
            list@ == parsed(names@),
    {
        let mut shapes: Vec<FolderNameVariant> = Vec::new();
        let mut i: usize = 0;
        while i < names.len()
            invariant
                i <= names.len(),
                shapes.len() == i,
                forall|k: int|
                    0 <= k < i ==> (#[trigger] shapes[k])@ == parse_name(names[k]@),
            decreases names.len() - i,
        {
            shapes.push(FolderName::new(names[i].clone()).classify());
            i = i + 1;
        }
        let list = FolderList(shapes);
        assert(list@ =~= parsed(names@));
        list
    }
}

} // verus!
