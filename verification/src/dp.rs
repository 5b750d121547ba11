//! Extraction of the data channels of a data-channel-list (DP) document.
use vstd::prelude::*;

use crate::table::KeyedTable;
use crate::text::string_of_str;
use crate::xml::{
    element_nodes, minidom_document, parse_xml, tree_child, tree_children, tree_text, XmlElement,
    XmlError, XmlNodeModel, XmlTree,
};

verus! {

/// Namespace of the ISO 19848 ship data definition.
pub const SDD_NS: &'static str = "urn:ISO19848:SHIP_DATA_DEFINITION";

/// Namespace of the device data map.
pub const DEVICE_NS: &'static str = "urn:BLUEONE:DEVICE_DATA_MAP";

/// Namespace of the data model definition.
pub const DMD_NS: &'static str = "urn:BLUEONE:DATA_MODEL_DEFINITION";

/// One data channel of a DP document.
pub struct Row {
    pub LocalID: String,
    pub OriginTag: String,
    pub Description: String,
    pub DeviceID: String,
    pub Unit: String,
    pub Type: String,
}

/// A row as a mathematical value.
pub struct RowModel {
    pub local_id: Seq<char>,
    pub origin_tag: Seq<char>,
    pub description: Seq<char>,
    pub device_id: Seq<char>,
    pub unit: Seq<char>,
    pub kind: Seq<char>,
}

impl View for Row {
    type V = RowModel;

    open spec fn view(&self) -> RowModel {
        RowModel {
            local_id: self.LocalID@,
            origin_tag: self.OriginTag@,
            description: self.Description@,
            device_id: self.DeviceID@,
            unit: self.Unit@,
            kind: self.Type@,
        }
    }
}

/// The element whose absence stops the extraction.
#[derive(PartialEq, Eq, Structural, Clone, Copy, Debug)]
pub enum DpElement {
    DataChannelList,
    DataChannelId,
    LocalId,
    Property,
    Format,
    Type,
    DeviceProperty,
    Id,
    OriginTag,
    Description,
    Unit,
}

/// Why a DP document gives no rows.
pub enum DpError {
    /// minidom refuses the document.
    Xml(XmlError),
    /// A required element is missing.
    Missing(DpElement),
}

/// The name by which an error message refers to a missing element.
pub open spec fn element_label(e: DpElement) -> Seq<char> {
    match e {
        DpElement::DataChannelList => "DataChannelList"@,
        DpElement::DataChannelId => "DataChannelId"@,
        DpElement::LocalId => "LocalID"@,
        DpElement::Property => "Property"@,
        DpElement::Format => "Format"@,
        DpElement::Type => "Type"@,
        DpElement::DeviceProperty => "DeviceProperty"@,
        DpElement::Id => "ID"@,
        DpElement::OriginTag => "OriginTag"@,
        DpElement::Description => "Description"@,
        DpElement::Unit => "Unit"@,
    }
}

/// The message for a missing element.
pub open spec fn missing_message(e: DpElement) -> Seq<char> {
    "Failed to get the element of "@ + element_label(e) + "."@
}

/// The row that the data channel `c` describes, or the first required element
/// that is missing, in the order in which they are looked up.
pub open spec fn channel_row(c: XmlTree) -> Result<RowModel, DpElement> {
    match tree_child(c, "DataChannelID"@, SDD_NS@) {
        None => Err(DpElement::DataChannelId),
        Some(channel_id) => match tree_child(channel_id, "LocalID"@, SDD_NS@) {
            None => Err(DpElement::LocalId),
            Some(local_id) => match tree_child(c, "Property"@, SDD_NS@) {
                None => Err(DpElement::Property),
                Some(props) => match tree_child(props, "Format"@, SDD_NS@) {
                    None => Err(DpElement::Format),
                    Some(format) => match tree_child(format, "Type"@, SDD_NS@) {
                        None => Err(DpElement::Type),
                        Some(kind) => match tree_child(props, "DeviceProperty"@, DEVICE_NS@) {
                            None => Err(DpElement::DeviceProperty),
                            Some(dev) => match tree_child(dev, "ID"@, DEVICE_NS@) {
                                None => Err(DpElement::Id),
                                Some(device_id) => match tree_child(
                                    dev,
                                    "OriginTag"@,
                                    DEVICE_NS@,
                                ) {
                                    None => Err(DpElement::OriginTag),
                                    Some(tag) => match tree_child(
                                        props,
                                        "Description"@,
                                        DMD_NS@,
                                    ) {
                                        None => Err(DpElement::Description),
                                        Some(desc) => match tree_child(props, "Unit"@, SDD_NS@) {
                                            None => Err(DpElement::Unit),
                                            Some(unit) => Ok(
                                                RowModel {
                                                    local_id: tree_text(local_id),
                                                    origin_tag: tree_text(tag),
                                                    description: tree_text(desc),
                                                    device_id: tree_text(device_id),
                                                    unit: match tree_child(
                                                        unit,
                                                        "QuantityName"@,
                                                        SDD_NS@,
                                                    ) {
                                                        Some(q) => tree_text(q),
                                                        None => Seq::empty(),
                                                    },
                                                    kind: tree_text(kind),
                                                },
                                            ),
                                        },
                                    },
                                },
                            },
                        },
                    },
                },
            },
        },
    }
}

/// The rows of the channels `cs`, in order, or the error of the first channel that has one.
pub open spec fn channels_rows(cs: Seq<XmlTree>) -> Result<Seq<RowModel>, DpElement>
    decreases cs.len(),
{
    if cs.len() == 0 {
        Ok(Seq::empty())
    } else {
        match channels_rows(cs.drop_last()) {
            Err(e) => Err(e),
            Ok(rows) => match channel_row(cs.last()) {
                Err(e) => Err(e),
                Ok(r) => Ok(rows.push(r)),
            },
        }
    }
}

/// The rows of a DP document: one per child element of its `DataChannelList`.
pub open spec fn document_rows(root: XmlTree) -> Result<Seq<RowModel>, DpElement> {
    match tree_child(root, "DataChannelList"@, SDD_NS@) {
        None => Err(DpElement::DataChannelList),
        Some(list) => channels_rows(tree_children(list)),
    }
}

/// `rows` is the result `expected`, row by row.
pub open spec fn rows_match(rows: Seq<Row>, expected: Seq<RowModel>) -> bool {
    &&& rows.len() == expected.len()
    &&& forall|k: int| 0 <= k < rows.len() ==> #[trigger] rows[k]@ == expected[k]
}

proof fn lemma_channels_rows_prefix_error(cs: Seq<XmlTree>, n: int)
    requires
        0 <= n <= cs.len(),
        channels_rows(cs.take(n)) is Err,
    ensures
        channels_rows(cs) == channels_rows(cs.take(n)),
    decreases cs.len() - n,
{
    if n == cs.len() {
        assert(cs.take(n) =~= cs);
    } else {
        assert(cs.take(n + 1).drop_last() =~= cs.take(n));
        lemma_channels_rows_prefix_error(cs, n + 1);
    }
}

impl DpElement {
    /// The name by which an error message refers to this element.
    pub fn label(&self) -> (r: &'static str)
        ensures
            r@ == element_label(*self),
    {
        match self {
            DpElement::DataChannelList => "DataChannelList",
            DpElement::DataChannelId => "DataChannelId",
            DpElement::LocalId => "LocalID",
            DpElement::Property => "Property",
            DpElement::Format => "Format",
            DpElement::Type => "Type",
            DpElement::DeviceProperty => "DeviceProperty",
            DpElement::Id => "ID",
            DpElement::OriginTag => "OriginTag",
            DpElement::Description => "Description",
            DpElement::Unit => "Unit",
        }
    }
}

impl DpError {
    /// The message of this error: minidom's message, or which element is missing.
    pub fn message(&self) -> (r: String)
        ensures
            match self {
                DpError::Xml(e) => r@ == e.message@,
                DpError::Missing(el) => r@ == missing_message(*el),
            },
    {
        match self {
            DpError::Xml(e) => e.message.clone(),
            DpError::Missing(el) => {
                let mut m = string_of_str("Failed to get the element of ");
                m.append(el.label());
                m.append(".");
                m
            },
        }
    }
}

/// The child of `e` named `name` in namespace `ns`, or `missing` where there is none.
fn required_child<'a>(e: &'a XmlElement, name: &str, ns: &str, missing: DpElement) -> (r: Result<
    &'a XmlElement,
    DpElement,
>)
    ensures
        match tree_child(e@, name@, ns@) {
            Some(t) => r matches Ok(c) && c@ == t,
            None => r == Err::<&XmlElement, DpElement>(missing),
        },
{
    match e.get_child(name, ns) {
        Some(c) => Ok(c),
        None => Err(missing),
    }
}

/// The row that the data channel `channel` describes.
pub fn channel_to_row(channel: &XmlElement) -> (r: Result<Row, DpElement>)
    ensures
        match channel_row(channel@) {
            Ok(m) => r matches Ok(row) && row@ == m,
            Err(e) => r == Err::<Row, DpElement>(e),
        },
{
    let channel_id = required_child(channel, "DataChannelID", SDD_NS, DpElement::DataChannelId)?;
    let local_id = required_child(channel_id, "LocalID", SDD_NS, DpElement::LocalId)?.text();
    let props = required_child(channel, "Property", SDD_NS, DpElement::Property)?;
    let format = required_child(props, "Format", SDD_NS, DpElement::Format)?;
    let kind = required_child(format, "Type", SDD_NS, DpElement::Type)?.text();
    let dev_props = required_child(props, "DeviceProperty", DEVICE_NS, DpElement::DeviceProperty)?;
    let device_id = required_child(dev_props, "ID", DEVICE_NS, DpElement::Id)?.text();
    let origin_tag = required_child(dev_props, "OriginTag", DEVICE_NS, DpElement::OriginTag)?.text();
    let description = required_child(props, "Description", DMD_NS, DpElement::Description)?.text();
    let unit_elem = required_child(props, "Unit", SDD_NS, DpElement::Unit)?;
    let unit = match unit_elem.get_child("QuantityName", SDD_NS) {
        Some(q) => q.text(),
        None => String::new(),
    };
    Ok(
        Row {
            Type: kind,
            LocalID: local_id,
            OriginTag: origin_tag,
            Description: description,
            DeviceID: device_id,
            Unit: unit,
        },
    )
}

/// The rows of the DP document whose root element is `root`.
pub fn rows_from_document(root: &XmlElement) -> (r: Result<Vec<Row>, DpError>)
    ensures
        match document_rows(root@) {
            Ok(ms) => r matches Ok(rows) && rows_match(rows@, ms),
            Err(e) => r matches Err(DpError::Missing(el)) && el == e,
        },
{
    let list = match root.get_child("DataChannelList", SDD_NS) {
        Some(l) => l,
        None => return Err(DpError::Missing(DpElement::DataChannelList)),
    };
    let channels = list.children();
    let ghost cs = tree_children(list@);
    let mut data: Vec<Row> = Vec::with_capacity(channels.len());
    let mut i: usize = 0;
    assert(cs.take(0) =~= Seq::<XmlTree>::empty());
    while i < channels.len()
        invariant
            i <= channels@.len(),
            channels@.len() == cs.len(),
            cs == tree_children(list@),
            document_rows(root@) == channels_rows(cs),
            forall|k: int| 0 <= k < channels@.len() ==> #[trigger] channels@[k]@ == cs[k],
            channels_rows(cs.take(i as int)) matches Ok(ms) && rows_match(data@, ms),
        decreases channels@.len() - i,
    {
        let ghost prev = channels_rows(cs.take(i as int))->Ok_0;
        assert(cs.take(i as int + 1).drop_last() =~= cs.take(i as int));
        assert(cs.take(i as int + 1).last() == cs[i as int]);
        match channel_to_row(channels[i]) {
            Ok(row) => {
                data.push(row);
                assert(channels_rows(cs.take(i as int + 1)) == Ok::<Seq<RowModel>, DpElement>(
                    prev.push(channel_row(cs[i as int])->Ok_0),
                ));
            },
            Err(e) => {
                proof {
                    lemma_channels_rows_prefix_error(cs, i as int + 1);
                }
                return Err(DpError::Missing(e));
            },
        }
        i = i + 1;
    }
    assert(cs.take(i as int) =~= cs);
    Ok(data)
}

/// The rows of the DP document `text`. It fails where minidom refuses the
/// document, and otherwise as `rows_from_document` does on the element tree
/// that minidom builds.
pub fn parse_dp(text: &str) -> (r: Result<Vec<Row>, DpError>)
    ensures
        match minidom_document(text@) {
            Err(m) => r matches Err(DpError::Xml(e)) && e.message@ == m,
            Ok(root) => match document_rows(root) {
                Ok(ms) => r matches Ok(rows) && rows_match(rows@, ms),
                Err(e) => r matches Err(DpError::Missing(el)) && el == e,
            },
        },
{
    match parse_xml(text) {
        Ok(root) => rows_from_document(&root),
        Err(e) => Err(DpError::Xml(e)),
    }
}

/// Where a channel gives a row, each field of the row is the direct text of
/// the element reached from the channel through first children of the given
/// names and namespaces: `DataChannelID/LocalID`, `Property/Format/Type`,
/// `Property/DeviceProperty/ID`, `Property/DeviceProperty/OriginTag`,
/// `Property/Description`; the unit is the direct text of
/// `Property/Unit/QuantityName`, or empty where `Unit` has no `QuantityName`.
/// Other children of these elements do not count.
pub proof fn law_row_fields(c: XmlTree)
    requires
        channel_row(c) is Ok,
    ensures
        tree_child(c, "DataChannelID"@, SDD_NS@) matches Some(id) && tree_child(
            id,
            "LocalID"@,
            SDD_NS@,
        ) matches Some(l) && channel_row(c)->Ok_0.local_id == tree_text(l),
        tree_child(c, "Property"@, SDD_NS@) matches Some(p) && tree_child(
            p,
            "Format"@,
            SDD_NS@,
        ) matches Some(f) && tree_child(f, "Type"@, SDD_NS@) matches Some(t) && channel_row(
            c,
        )->Ok_0.kind == tree_text(t),
        tree_child(c, "Property"@, SDD_NS@) matches Some(p) && tree_child(
            p,
            "DeviceProperty"@,
            DEVICE_NS@,
        ) matches Some(dev) && tree_child(dev, "ID"@, DEVICE_NS@) matches Some(i) && channel_row(
            c,
        )->Ok_0.device_id == tree_text(i),
        tree_child(c, "Property"@, SDD_NS@) matches Some(p) && tree_child(
            p,
            "DeviceProperty"@,
            DEVICE_NS@,
        ) matches Some(dev) && tree_child(dev, "OriginTag"@, DEVICE_NS@) matches Some(o)
            && channel_row(c)->Ok_0.origin_tag == tree_text(o),
        tree_child(c, "Property"@, SDD_NS@) matches Some(p) && tree_child(
            p,
            "Description"@,
            DMD_NS@,
        ) matches Some(d) && channel_row(c)->Ok_0.description == tree_text(d),
        tree_child(c, "Property"@, SDD_NS@) matches Some(p) && tree_child(p, "Unit"@, SDD_NS@) matches Some(
            u,
        ) && channel_row(c)->Ok_0.unit == match tree_child(u, "QuantityName"@, SDD_NS@) {
            Some(q) => tree_text(q),
            None => Seq::<char>::empty(),
        },
{
}

/// A channel gives a row exactly where every required element is there:
/// `DataChannelID/LocalID`, `Property` with `Format/Type`,
/// `DeviceProperty/ID`, `DeviceProperty/OriginTag`, `Description` and `Unit`.
pub proof fn law_row_exists(c: XmlTree)
    ensures
        channel_row(c) is Ok <==> {
            &&& tree_child(c, "DataChannelID"@, SDD_NS@) matches Some(id) && tree_child(
                id,
                "LocalID"@,
                SDD_NS@,
            ) is Some
            &&& tree_child(c, "Property"@, SDD_NS@) matches Some(p) && {
                &&& tree_child(p, "Format"@, SDD_NS@) matches Some(f) && tree_child(
                    f,
                    "Type"@,
                    SDD_NS@,
                ) is Some
                &&& tree_child(p, "DeviceProperty"@, DEVICE_NS@) matches Some(dev) && tree_child(
                    dev,
                    "ID"@,
                    DEVICE_NS@,
                ) is Some && tree_child(dev, "OriginTag"@, DEVICE_NS@) is Some
                &&& tree_child(p, "Description"@, DMD_NS@) is Some
                &&& tree_child(p, "Unit"@, SDD_NS@) is Some
            }
        },
{
}

/// A list of channels gives one row per channel, in order, exactly where every
/// channel has its required elements; otherwise the error is that of the first
/// channel that lacks one.
pub proof fn law_one_row_per_channel(cs: Seq<XmlTree>)
    ensures
        channels_rows(cs) is Ok <==> forall|k: int| 0 <= k < cs.len() ==> #[trigger] channel_row(cs[k]) is Ok,
        channels_rows(cs) matches Ok(ms) ==> ms.len() == cs.len() && forall|k: int|
            0 <= k < cs.len() ==> channel_row(cs[k]) == Ok::<RowModel, DpElement>(#[trigger] ms[k]),
        channels_rows(cs) matches Err(e) ==> exists|k: int|
            0 <= k < cs.len() && channel_row(cs[k]) == Err::<RowModel, DpElement>(e) && forall|j: int|
                0 <= j < k ==> #[trigger] channel_row(cs[j]) is Ok,
    decreases cs.len(),
{
    if cs.len() > 0 {
        let p = cs.drop_last();
        law_one_row_per_channel(p);
        assert forall|k: int| 0 <= k < p.len() implies #[trigger] p[k] == cs[k] by {}
        match channels_rows(p) {
            Ok(ms) => {
                match channel_row(cs.last()) {
                    Ok(r) => {
                        let ms2 = ms.push(r);
                        assert forall|k: int| 0 <= k < cs.len() implies channel_row(cs[k]) == Ok::<
                            RowModel,
                            DpElement,
                        >(#[trigger] ms2[k]) by {
                            if k < p.len() {
                                assert(channel_row(p[k]) == Ok::<RowModel, DpElement>(ms[k]));
                            }
                        }
                        assert forall|k: int| 0 <= k < cs.len() implies #[trigger] channel_row(
                            cs[k],
                        ) is Ok by {
                            assert(channel_row(cs[k]) == Ok::<RowModel, DpElement>(ms2[k]));
                        }
                    },
                    Err(e) => {
                        let k = cs.len() - 1;
                        assert(channel_row(cs[k]) == Err::<RowModel, DpElement>(e));
                        assert forall|j: int| 0 <= j < k implies #[trigger] channel_row(cs[j]) is Ok by {
                            assert(channel_row(p[j]) is Ok);
                        }
                    },
                }
            },
            Err(e) => {
                let k = choose|k: int|
                    0 <= k < p.len() && channel_row(p[k]) == Err::<RowModel, DpElement>(e) && forall|j: int|
                        0 <= j < k ==> #[trigger] channel_row(p[j]) is Ok;
                assert(channel_row(cs[k]) == Err::<RowModel, DpElement>(e));
                assert forall|j: int| 0 <= j < k implies #[trigger] channel_row(cs[j]) is Ok by {
                    assert(channel_row(p[j]) is Ok);
                }
            },
        }
    }
}

/// A complete channel appended to a list of channels adds its row at the end.
pub proof fn law_appended_channel(cs: Seq<XmlTree>, c: XmlTree)
    requires
        channels_rows(cs) is Ok,
        channel_row(c) is Ok,
    ensures
        channels_rows(cs.push(c)) == Ok::<Seq<RowModel>, DpElement>(
            channels_rows(cs)->Ok_0.push(channel_row(c)->Ok_0),
        ),
{
    assert(cs.push(c).drop_last() =~= cs);
}

proof fn lemma_element_nodes_push(nodes: Seq<XmlNodeModel>, c: XmlTree)
    ensures
        element_nodes(nodes.push(XmlNodeModel::Element(c))) == element_nodes(nodes).push(c),
    decreases nodes.len(),
{
    let x = XmlNodeModel::Element(c);
    if nodes.len() == 0 {
        assert(nodes.push(x).drop_first() =~= Seq::<XmlNodeModel>::empty());
        assert(nodes.push(x)[0] == x);
        assert(element_nodes(Seq::<XmlNodeModel>::empty()) == Seq::<XmlTree>::empty());
        assert(element_nodes(nodes.push(x)) =~= seq![c] + Seq::<XmlTree>::empty());
        assert(element_nodes(nodes) =~= Seq::<XmlTree>::empty());
    } else {
        lemma_element_nodes_push(nodes.drop_first(), c);
        assert(nodes.push(x).drop_first() =~= nodes.drop_first().push(x));
        assert(nodes.push(x)[0] == nodes[0]);
        match nodes[0] {
            XmlNodeModel::Element(t) => {
                assert(element_nodes(nodes.push(x)) =~= element_nodes(nodes).push(c));
            },
            XmlNodeModel::Text(_) => {},
        }
    }
}

/// A document whose `DataChannelList` has one more complete channel as its
/// last child gives the rows of the document without it, and then that
/// channel's row.
pub proof fn law_document_with_appended_channel(
    root: XmlTree,
    root2: XmlTree,
    list: XmlTree,
    c: XmlTree,
)
    requires
        tree_child(root, "DataChannelList"@, SDD_NS@) == Some(list),
        tree_child(root2, "DataChannelList"@, SDD_NS@) == Some(
            XmlTree { nodes: list.nodes.push(XmlNodeModel::Element(c)), ..list },
        ),
        document_rows(root) is Ok,
        channel_row(c) is Ok,
    ensures
        document_rows(root2) == Ok::<Seq<RowModel>, DpElement>(
            document_rows(root)->Ok_0.push(channel_row(c)->Ok_0),
        ),
{
    lemma_element_nodes_push(list.nodes, c);
    law_appended_channel(tree_children(list), c);
}

/// The table from local id to origin tag that the rows `rows` make, a later
/// row replacing an earlier one with the same local id.
pub open spec fn rows_tags(rows: Seq<Row>) -> Map<Seq<char>, String>
    decreases rows.len(),
{
    if rows.len() == 0 {
        Map::empty()
    } else {
        rows_tags(rows.drop_last()).insert(rows.last().LocalID@, rows.last().OriginTag)
    }
}

/// The table from each row's local id to its origin tag.
pub fn tag_table(rows: &Vec<Row>) -> (r: KeyedTable<String>)
    ensures
        r@ == rows_tags(rows@),
{
    let mut table: KeyedTable<String> = KeyedTable::new();
    let mut i: usize = 0;
    while i < rows.len()
        invariant
            i <= rows@.len(),
            table@ == rows_tags(rows@.take(i as int)),
        decreases rows@.len() - i,
    {
        assert(rows@.take(i + 1).drop_last() =~= rows@.take(i as int));
        table.insert(rows[i].LocalID.clone(), rows[i].OriginTag.clone());
        i = i + 1;
    }
    assert(rows@.take(i as int) =~= rows@);
    table
}

/// The keys of the tag table are exactly the local ids of the rows.
pub proof fn law_tag_table_keys(rows: Seq<Row>, q: Seq<char>)
    ensures
        rows_tags(rows).dom().contains(q) <==> exists|j: int|
            0 <= j < rows.len() && #[trigger] rows[j].LocalID@ == q,
    decreases rows.len(),
{
    if rows.len() > 0 {
        law_tag_table_keys(rows.drop_last(), q);
        if exists|j: int| 0 <= j < rows.len() && #[trigger] rows[j].LocalID@ == q {
            let j = choose|j: int| 0 <= j < rows.len() && #[trigger] rows[j].LocalID@ == q;
            if j < rows.len() - 1 {
                assert(rows.drop_last()[j].LocalID@ == q);
            }
        }
        if rows_tags(rows.drop_last()).dom().contains(q) {
            let j = choose|j: int|
                0 <= j < rows.drop_last().len() && #[trigger] rows.drop_last()[j].LocalID@ == q;
            assert(rows[j].LocalID@ == q);
        }
    }
}

/// Under a local id, the tag table holds the origin tag of the last row with that local id.
pub proof fn law_tag_table_last_wins(rows: Seq<Row>, j: int)
    requires
        0 <= j < rows.len(),
        forall|k: int| j < k < rows.len() ==> #[trigger] rows[k].LocalID@ != rows[j].LocalID@,
    ensures
        rows_tags(rows).dom().contains(rows[j].LocalID@),
        rows_tags(rows)[rows[j].LocalID@] == rows[j].OriginTag,
    decreases rows.len(),
{
    if j < rows.len() - 1 {
        let p = rows.drop_last();
        assert forall|k: int| j < k < p.len() implies #[trigger] p[k].LocalID@ != p[j].LocalID@ by {
            assert(p[k] == rows[k]);
        }
        law_tag_table_last_wins(p, j);
        assert(rows[rows.len() - 1].LocalID@ != rows[j].LocalID@);
    }
}

/// The table from local id to origin tag that the rows `ms` make, a later
/// row replacing an earlier one with the same local id.
pub open spec fn model_tags(ms: Seq<RowModel>) -> Map<Seq<char>, Seq<char>>
    decreases ms.len(),
{
    if ms.len() == 0 {
        Map::empty()
    } else {
        model_tags(ms.drop_last()).insert(ms.last().local_id, ms.last().origin_tag)
    }
}

/// The texts of a table of strings, key by key.
pub open spec fn tag_texts(m: Map<Seq<char>, String>) -> Map<Seq<char>, Seq<char>> {
    Map::new(|k: Seq<char>| m.dom().contains(k), |k: Seq<char>| m[k]@)
}

proof fn lemma_tags_of_matching_rows(rows: Seq<Row>, ms: Seq<RowModel>)
    requires
        rows_match(rows, ms),
    ensures
        tag_texts(rows_tags(rows)) == model_tags(ms),
    decreases rows.len(),
{
    if rows.len() > 0 {
        let p = rows.drop_last();
        let q = ms.drop_last();
        assert forall|k: int| 0 <= k < p.len() implies #[trigger] p[k]@ == q[k] by {
            assert(rows[k]@ == ms[k]);
        }
        lemma_tags_of_matching_rows(p, q);
        assert(rows.last()@ == ms.last());
        assert(tag_texts(rows_tags(rows)) =~= model_tags(ms));
    }
}

/// Reads the DP document `text` and puts its table from local id to origin
/// tag under the file name `fname`; where the document gives no rows, the
/// list is left as it was and the error comes back.
pub fn add_dp(list: &mut KeyedTable<KeyedTable<String>>, fname: String, text: &str) -> (r: Result<
    (),
    DpError,
>)
    ensures
        match minidom_document(text@) {
            Err(m) => r matches Err(DpError::Xml(e)) && e.message@ == m && final(list)@ == old(
                list,
            )@,
            Ok(root) => match document_rows(root) {
                Err(e) => r matches Err(DpError::Missing(el)) && el == e && final(list)@ == old(
                    list,
                )@,
                Ok(ms) => {
                    &&& r is Ok
                    &&& final(list)@.dom() == old(list)@.dom().insert(fname@)
                    &&& tag_texts(final(list)@[fname@]@) == model_tags(ms)
                    &&& forall|k: Seq<char>|
                        k != fname@ && old(list)@.dom().contains(k) ==> #[trigger] final(list)@[k]
                            == old(list)@[k]
                },
            },
        },
{
    let rows = parse_dp(text)?;
    let table = tag_table(&rows);
    proof {
        match minidom_document(text@) {
            Ok(root) => match document_rows(root) {
                Ok(ms) => lemma_tags_of_matching_rows(rows@, ms),
                Err(_) => {},
            },
            Err(_) => {},
        }
    }
    list.insert(fname, table);
    Ok(())
}

} // verus!
