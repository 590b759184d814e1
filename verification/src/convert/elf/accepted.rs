//! Laws on which symbols become functions.
use vstd::prelude::*;

use crate::convert::elf::distinct;
use crate::convert::elf::image;
use crate::convert::elf::image::LayoutView;
use crate::convert::elf::object_file;
use crate::convert::elf::object_file::SymbolView;
use crate::convert::elf::symbols;
use crate::convert::elf::symbols::{SymbolDisposition, SymbolFunctionView};
use crate::model::AddressRange;

verus! {

/// The address of a symbol: its own in a linked image, and in a relocatable object
/// that of its section and its own, if it has a section.
pub open spec fn place_of_symbol(data: Seq<u8>, layout: LayoutView, symbol: SymbolView) -> Option<
    int,
> {
    if !layout.relocatable {
        Some(symbol.address as int)
    } else {
        match symbol.section {
            None => None,
            Some(index) => match object_file::object_section(data, index) {
                Err(_) => None,
                Ok(section) => match image::base_of(layout, section) {
                    Err(_) => None,
                    Ok(base) => Some(base + symbol.address),
                },
            },
        }
    }
}

/// Whether a symbol stands for a function with a range and a name: it is defined as
/// code, has that name, and its size and address give the range.
pub open spec fn stands_for(
    data: Seq<u8>,
    layout: LayoutView,
    symbol: SymbolView,
    range: AddressRange,
    name: Seq<u8>,
) -> bool {
    &&& symbol.text
    &&& symbol.definition
    &&& symbol.name == Some(name)
    &&& name.len() > 0
    &&& place_of_symbol(data, layout, symbol) == Some(range.start as int)
    &&& range.end == range.start + symbol.size
}

/// Whether a range lies in one executable range, and a function can have it.
pub open spec fn is_executable(layout: LayoutView, range: AddressRange) -> bool {
    &&& range.end - range.start <= u32::MAX
    &&& exists|r: int|
        0 <= r < layout.ranges.len() && (#[trigger] layout.ranges[r]).start <= range.start
            && range.end <= layout.ranges[r].end
}

proof fn lemma_visited(
    data: Seq<u8>,
    list: Seq<SymbolView>,
    layout: LayoutView,
    count: nat,
)
    requires
        count <= list.len(),
        symbols::visited(data, list, layout, count).error is None,
    ensures
        ({
            let found = symbols::visited(data, list, layout, count).functions;
            &&& forall|k: int|
                0 <= k < found.len() ==> has_symbol(data, list, layout, count, #[trigger] found[k])
            &&& forall|s: int, range: AddressRange, name: Seq<u8>|
                0 <= s < count && #[trigger] stands_for(data, layout, list[s], range, name)
                    ==> is_found(found, layout, range, name)
        }),
    decreases count,
{
    if count > 0 {
        let m = (count - 1) as nat;
        lemma_visited(data, list, layout, m);
        let before = symbols::visited(data, list, layout, m).functions;
        let found = symbols::visited(data, list, layout, count).functions;
        let symbol = list[m as int];
        assert forall|k: int| 0 <= k < found.len() implies has_symbol(
            data,
            list,
            layout,
            count,
            #[trigger] found[k],
        ) by {
            if k < before.len() {
                assert(found[k] == before[k]);
                assert(has_symbol(data, list, layout, m, before[k]));
                let s = choose|s: int|
                    0 <= s < m && stands_for(
                        data,
                        layout,
                        #[trigger] list[s],
                        before[k].range,
                        before[k].name,
                    );
                assert(stands_for(data, layout, list[s], found[k].range, found[k].name));
            } else {
                assert(stands_for(data, layout, list[m as int], found[k].range, found[k].name));
            }
        }
        assert forall|s: int, range: AddressRange, name: Seq<u8>|
            0 <= s < count && #[trigger] stands_for(
                data,
                layout,
                list[s],
                range,
                name,
            ) implies is_found(found, layout, range, name) by {
            if s < m {
                assert(is_found(before, layout, range, name));
                let k = choose|k: int|
                    0 <= k < before.len() && (#[trigger] before[k]).range == range && before[k].name
                        == name && (before[k].disposition == SymbolDisposition::Import
                        <==> is_executable(layout, range));
                assert(found[k] == before[k]);
            } else {
                let k = before.len() as int;
                assert(found[k].range == range && found[k].name == name);
            }
        }
    }
}

/// Whether one of the first `count` symbols stands for a function.
spec fn has_symbol(
    data: Seq<u8>,
    list: Seq<SymbolView>,
    layout: LayoutView,
    count: nat,
    function: SymbolFunctionView,
) -> bool {
    &&& exists|s: int|
        0 <= s < count && stands_for(
            data,
            layout,
            #[trigger] list[s],
            function.range,
            function.name,
        )
    &&& function.disposition == SymbolDisposition::Import <==> is_executable(
        layout,
        function.range,
    )
}

/// Whether a function was found with the fate that its range gives it.
spec fn is_found(
    found: Seq<SymbolFunctionView>,
    layout: LayoutView,
    range: AddressRange,
    name: Seq<u8>,
) -> bool {
    exists|k: int|
        0 <= k < found.len() && (#[trigger] found[k]).range == range && found[k].name == name && (
        found[k].disposition == SymbolDisposition::Import <==> is_executable(layout, range))
}

/// Whether a symbol of one of the first `count` files stands for a function.
pub open spec fn is_symbol_of(
    files: Seq<Seq<u8>>,
    layout: LayoutView,
    count: nat,
    range: AddressRange,
    name: Seq<u8>,
) -> bool {
    exists|f: int, s: int|
        0 <= f < count && 0 <= s < symbols::all_symbols(files[f]).len() && #[trigger] stands_for(
            files[f],
            layout,
            symbols::all_symbols(files[f])[s],
            range,
            name,
        )
}

proof fn lemma_files(files: Seq<Seq<u8>>, layout: LayoutView, count: nat)
    requires
        count <= files.len(),
        distinct::files_functions(files, layout, count).error is None,
    ensures
        ({
            let found = distinct::files_functions(files, layout, count).functions;
            &&& forall|k: int|
                0 <= k < found.len() ==> is_symbol_of(
                    files,
                    layout,
                    count,
                    (#[trigger] found[k]).range,
                    found[k].name,
                ) && (found[k].disposition == SymbolDisposition::Import <==> is_executable(
                    layout,
                    found[k].range,
                ))
            &&& forall|range: AddressRange, name: Seq<u8>| #[trigger]
                is_symbol_of(files, layout, count, range, name) ==> is_found(
                    found,
                    layout,
                    range,
                    name,
                )
        }),
    decreases count,
{
    if count > 0 {
        let m = (count - 1) as nat;
        lemma_files(files, layout, m);
        let data = files[m as int];
        let list = symbols::all_symbols(data);
        lemma_visited(data, list, layout, list.len());
        let before = distinct::files_functions(files, layout, m).functions;
        let next = symbols::file_functions(data, layout).functions;
        let found = distinct::files_functions(files, layout, count).functions;
        assert(found == before + next);
        assert forall|k: int| 0 <= k < found.len() implies is_symbol_of(
            files,
            layout,
            count,
            (#[trigger] found[k]).range,
            found[k].name,
        ) && (found[k].disposition == SymbolDisposition::Import <==> is_executable(
            layout,
            found[k].range,
        )) by {
            let (range, name) = (found[k].range, found[k].name);
            if k < before.len() {
                assert(found[k] == before[k]);
                assert(is_symbol_of(files, layout, m, range, name));
                let (f, s) = choose|f: int, s: int|
                    0 <= f < m && 0 <= s < symbols::all_symbols(files[f]).len()
                        && #[trigger] stands_for(
                        files[f],
                        layout,
                        symbols::all_symbols(files[f])[s],
                        range,
                        name,
                    );
                assert(stands_for(
                    files[f],
                    layout,
                    symbols::all_symbols(files[f])[s],
                    range,
                    name,
                ));
            } else {
                let at = k - before.len();
                assert(found[k] == next[at]);
                assert(has_symbol(data, list, layout, list.len(), next[at]));
                let s = choose|s: int|
                    0 <= s < list.len() && stands_for(
                        data,
                        layout,
                        #[trigger] list[s],
                        range,
                        name,
                    );
                assert(stands_for(
                    files[m as int],
                    layout,
                    symbols::all_symbols(files[m as int])[s],
                    range,
                    name,
                ));
            }
        }
        assert forall|range: AddressRange, name: Seq<u8>| #[trigger]
            is_symbol_of(files, layout, count, range, name) implies is_found(
            found,
            layout,
            range,
            name,
        ) by {
            let (f, s) = choose|f: int, s: int|
                0 <= f < count && 0 <= s < symbols::all_symbols(files[f]).len()
                    && #[trigger] stands_for(
                    files[f],
                    layout,
                    symbols::all_symbols(files[f])[s],
                    range,
                    name,
                );
            if f < m {
                assert(is_symbol_of(files, layout, m, range, name));
                assert(is_found(before, layout, range, name));
                let k = choose|k: int|
                    0 <= k < before.len() && (#[trigger] before[k]).range == range && before[k].name
                        == name && (before[k].disposition == SymbolDisposition::Import
                        <==> is_executable(layout, range));
                assert(found[k] == before[k]);
            } else {
                assert(stands_for(data, layout, list[s], range, name));
                assert(is_found(next, layout, range, name));
                let k = choose|k: int|
                    0 <= k < next.len() && (#[trigger] next[k]).range == range && next[k].name
                        == name && (next[k].disposition == SymbolDisposition::Import
                        <==> is_executable(layout, range));
                assert(found[before.len() + k] == next[k]);
            }
        }
    }
}

proof fn lemma_sharing_contains(functions: Seq<SymbolFunctionView>, fate: SymbolDisposition)
    ensures
        forall|range: AddressRange, name: Seq<u8>| #[trigger]
            distinct::sharing(functions, fate).contains((range, name)) <==> exists|k: int|
                0 <= k < functions.len() && (#[trigger] functions[k]).range == range
                    && functions[k].name == name && functions[k].disposition == fate,
    decreases functions.len(),
{
    let shared = distinct::sharing(functions, fate);
    if functions.len() > 0 {
        let head = functions.drop_last();
        let rest = distinct::sharing(head, fate);
        let n = functions.len() - 1;
        let last = functions.last();
        lemma_sharing_contains(head, fate);
        assert forall|range: AddressRange, name: Seq<u8>| #[trigger]
            shared.contains((range, name)) <==> exists|k: int|
                0 <= k < functions.len() && (#[trigger] functions[k]).range == range
                    && functions[k].name == name && functions[k].disposition == fate by {
            let pair = (range, name);
            if shared.contains(pair) {
                let i = choose|i: int| 0 <= i < shared.len() && shared[i] == pair;
                if i < rest.len() {
                    assert(rest[i] == pair);
                    assert(rest.contains((range, name)));
                    let k = choose|k: int|
                        0 <= k < head.len() && (#[trigger] head[k]).range == range && head[k].name
                            == name && head[k].disposition == fate;
                    assert(functions[k] == head[k]);
                } else {
                    assert(functions[n] == last);
                }
            }
            if exists|k: int|
                0 <= k < functions.len() && (#[trigger] functions[k]).range == range
                    && functions[k].name == name && functions[k].disposition == fate {
                let k = choose|k: int|
                    0 <= k < functions.len() && (#[trigger] functions[k]).range == range
                        && functions[k].name == name && functions[k].disposition == fate;
                if k < n {
                    assert(head[k] == functions[k]);
                    assert(rest.contains((range, name)));
                    let i = choose|i: int| 0 <= i < rest.len() && rest[i] == pair;
                    assert(shared[i] == pair);
                } else {
                    assert(shared[rest.len() as int] == pair);
                }
            }
        }
    }
}

/// The functions that are imported from symbol tables are exactly those that a
/// symbol of one of the files stands for and that lie in one executable range.
pub proof fn law_symbols_in_code_become_functions(files: Seq<Seq<u8>>, layout: LayoutView)
    ensures
        distinct::imported(files, layout).error is None ==> forall|
            range: AddressRange,
            name: Seq<u8>,
        | #[trigger]
            distinct::imported(files, layout).functions.contains((range, name)) <==> (is_symbol_of(
                files,
                layout,
                files.len(),
                range,
                name,
            ) && is_executable(layout, range)),
{
    let import = distinct::imported(files, layout);
    if import.error is None {
        let found = distinct::files_functions(files, layout, files.len()).functions;
        let accepted = distinct::sharing(found, SymbolDisposition::Import);
        lemma_files(files, layout, files.len());
        lemma_sharing_contains(found, SymbolDisposition::Import);
        distinct::law_functions_as_set(accepted);
        assert forall|range: AddressRange, name: Seq<u8>| #[trigger]
            import.functions.contains((range, name)) <==> (is_symbol_of(
                files,
                layout,
                files.len(),
                range,
                name,
            ) && is_executable(layout, range)) by {
            assert(import.functions.contains((range, name)) <==> accepted.contains((range, name)));
            if is_symbol_of(files, layout, files.len(), range, name) && is_executable(
                layout,
                range,
            ) {
                assert(is_found(found, layout, range, name));
            }
        }
    }
}

} // verus!
