//! Functions of symbol tables.
use vstd::prelude::*;
use vstd::string::*;

use crate::convert::dwarf::ranges;
use crate::convert::dwarf::ranges::lies_within;
use crate::convert::elf::image;
use crate::convert::elf::image::{AddressLayout, LayoutView};
use crate::convert::elf::object_file;
use crate::convert::elf::object_file::{
    malformed, ObjectFile, Section, SectionView, Symbol, SymbolView,
};
use crate::error::{Error, ErrorView};
use crate::model::{copy_bytes, AddressRange};

verus! {

/// What becomes of a symbol.
#[derive(Clone, Copy, Debug, PartialEq, Eq, Structural)]
pub enum SymbolDisposition {
    /// It becomes a function.
    Import,
    /// It is counted as rejected.
    Reject,
}

/// A function that a symbol stands for.
pub struct SymbolFunction {
    /// Address range.
    pub range: AddressRange,
    /// Name.
    pub name: Vec<u8>,
    /// What becomes of the symbol.
    pub disposition: SymbolDisposition,
}

/// A function that a symbol stands for.
pub struct SymbolFunctionView {
    /// Address range.
    pub range: AddressRange,
    /// Name.
    pub name: Seq<u8>,
    /// What becomes of the symbol.
    pub disposition: SymbolDisposition,
}

impl View for SymbolFunction {
    type V = SymbolFunctionView;

    open spec fn view(&self) -> SymbolFunctionView {
        SymbolFunctionView {
            range: self.range,
            name: self.name@,
            disposition: self.disposition,
        }
    }
}

/// The address of a symbol, if it has one. `section` is its section.
pub open spec fn symbol_address(
    symbol: SymbolView,
    layout: LayoutView,
    section: Option<Result<SectionView, Seq<char>>>,
) -> Result<Option<u64>, ErrorView> {
    if !layout.relocatable {
        Ok(Some(symbol.address))
    } else {
        match section {
            None => Ok(None),
            Some(Err(text)) => Err(object_file::parser_error("ELF symbol section", text)),
            Some(Ok(section)) => match image::base_of(layout, section) {
                Err(error) => Err(error@),
                Ok(base) => if base + symbol.address > u64::MAX {
                    Err(ErrorView::Plain(Error::Overflow("relocatable symbol address")))
                } else {
                    Ok(Some((base + symbol.address) as u64))
                },
            },
        }
    }
}

/// What becomes of the function of a symbol.
pub open spec fn disposition_of(size: u64, range: AddressRange, layout: LayoutView) -> SymbolDisposition {
    if size <= u32::MAX && ranges::is_within(layout.ranges, range) {
        SymbolDisposition::Import
    } else {
        SymbolDisposition::Reject
    }
}

/// The function that a symbol stands for, if it stands for one. `section` is
/// the symbol's section.
pub open spec fn function_of(
    symbol: SymbolView,
    layout: LayoutView,
    section: Option<Result<SectionView, Seq<char>>>,
) -> Result<Option<SymbolFunctionView>, ErrorView> {
    if !symbol.text || !symbol.definition {
        Ok(None)
    } else {
        match symbol_address(symbol, layout, section) {
            Err(error) => Err(error),
            Ok(None) => Ok(None),
            Ok(Some(address)) => if symbol.name is None || symbol.name->0.len() == 0 {
                Ok(None)
            } else if address + symbol.size > u64::MAX {
                Err(ErrorView::Plain(Error::Overflow("ELF symbol end")))
            } else {
                let range = AddressRange { start: address, end: (address + symbol.size) as u64 };
                Ok(
                    Some(
                        SymbolFunctionView {
                            range,
                            name: symbol.name->0,
                            disposition: disposition_of(symbol.size, range, layout),
                        },
                    ),
                )
            },
        }
    }
}

/// What a section result says.
pub open spec fn section_view(section: Option<Result<Section, String>>) -> Option<
    Result<SectionView, Seq<char>>,
> {
    match section {
        None => None,
        Some(Ok(section)) => Some(Ok(section@)),
        Some(Err(source)) => Some(Err(source@)),
    }
}

fn place_symbol(
    symbol: &Symbol,
    layout: &AddressLayout,
    section: Option<Result<Section, String>>,
) -> (result: Result<Option<u64>, Error>)
    ensures
        match symbol_address(symbol@, layout@, section_view(section)) {
            Ok(address) => result == Ok::<Option<u64>, Error>(address),
            Err(view) => result matches Err(error) && error@ == view,
        },
{
    if !layout.is_relocatable() {
        return Ok(Some(symbol.address));
    }
    match section {
        None => Ok(None),
        Some(Err(source)) => Err(malformed("ELF symbol section", source)),
        Some(Ok(section)) => {
            let base: u64 = layout.section_base(&section)?;
            match base.checked_add(symbol.address) {
                Some(address) => Ok(Some(address)),
                None => Err(Error::Overflow("relocatable symbol address")),
            }
        },
    }
}

/// Finds the function that a symbol stands for, given the symbol's section.
pub fn symbol_function(
    symbol: &Symbol,
    layout: &AddressLayout,
    section: Option<Result<Section, String>>,
) -> (result: Result<Option<SymbolFunction>, Error>)
    ensures
        match function_of(symbol@, layout@, section_view(section)) {
            Ok(Some(view)) => result matches Ok(Some(function)) && function@ == view,
            Ok(None) => result == Ok::<Option<SymbolFunction>, Error>(None),
            Err(view) => result matches Err(error) && error@ == view,
        },
{
    if !symbol.text || !symbol.definition {
        return Ok(None);
    }
    let address: u64 = match place_symbol(symbol, layout, section)? {
        Some(address) => address,
        None => return Ok(None),
    };
    let name: &Vec<u8> = match &symbol.name {
        Some(name) => name,
        None => return Ok(None),
    };
    if name.len() == 0 {
        return Ok(None);
    }
    let end: u64 = match address.checked_add(symbol.size) {
        Some(end) => end,
        None => return Err(Error::Overflow("ELF symbol end")),
    };
    let range = AddressRange::new(address, end);
    let disposition = if symbol.size <= u32::MAX as u64 && lies_within(
        layout.ranges().as_slice(),
        range,
    ) {
        SymbolDisposition::Import
    } else {
        SymbolDisposition::Reject
    };
    Ok(Some(SymbolFunction { range, name: copy_bytes(name.as_slice()), disposition }))
}

/// The section of a symbol of a file, where the layout needs it.
pub open spec fn section_of(data: Seq<u8>, layout: LayoutView, symbol: SymbolView) -> Option<
    Result<SectionView, Seq<char>>,
> {
    match symbol.section {
        Some(index) if layout.relocatable => Some(object_file::object_section(data, index)),
        _ => None,
    }
}

/// The functions that the first `count` symbols stand for, and the error that
/// ended the visit.
pub struct Visit {
    /// The functions in the order of the symbols.
    pub functions: Seq<SymbolFunctionView>,
    /// The error.
    pub error: Option<ErrorView>,
}

/// The functions of the first `count` symbols.
pub open spec fn visited(
    data: Seq<u8>,
    symbols: Seq<SymbolView>,
    layout: LayoutView,
    count: nat,
) -> Visit
    decreases count,
{
    if count == 0 {
        Visit { functions: Seq::empty(), error: None }
    } else {
        let before = visited(data, symbols, layout, (count - 1) as nat);
        if before.error is Some {
            before
        } else {
            let symbol = symbols[count - 1];
            match function_of(symbol, layout, section_of(data, layout, symbol)) {
                Err(error) => Visit { error: Some(error), ..before },
                Ok(None) => before,
                Ok(Some(function)) => Visit {
                    functions: before.functions.push(function),
                    ..before
                },
            }
        }
    }
}

/// The symbols of a file, with the dynamic ones behind the others.
pub open spec fn all_symbols(data: Seq<u8>) -> Seq<SymbolView> {
    object_file::object_symbols(data) + object_file::object_dynamic_symbols(data)
}

/// The functions of a file's symbols.
pub open spec fn file_functions(data: Seq<u8>, layout: LayoutView) -> Visit {
    visited(data, all_symbols(data), layout, all_symbols(data).len())
}

proof fn lemma_visit_stops(
    data: Seq<u8>,
    symbols: Seq<SymbolView>,
    layout: LayoutView,
    count: nat,
    whole: nat,
)
    requires
        count <= whole,
        visited(data, symbols, layout, count).error is Some,
    ensures
        visited(data, symbols, layout, whole) == visited(data, symbols, layout, count),
    decreases whole,
{
    if count < whole {
        lemma_visit_stops(data, symbols, layout, count, (whole - 1) as nat);
    }
}

/// The functions of a list.
pub open spec fn function_list(functions: Seq<SymbolFunction>) -> Seq<SymbolFunctionView> {
    Seq::new(functions.len(), |i: int| functions[i]@)
}

fn visit_list(
    file: &ObjectFile<'_>,
    layout: &AddressLayout,
    symbols: &Vec<Symbol>,
    functions: &mut Vec<SymbolFunction>,
    Ghost(whole): Ghost<Seq<SymbolView>>,
    Ghost(from): Ghost<nat>,
) -> (result: Result<(), Error>)
    requires
        from + symbols@.len() <= whole.len(),
        whole.subrange(from as int, (from + symbols@.len()) as int) == object_file::symbol_views(symbols@),
        visited(file@, whole, layout@, from).error is None,
        visited(file@, whole, layout@, from).functions == function_list(old(functions)@),
    ensures
        match visited(file@, whole, layout@, from + symbols@.len()).error {
            Some(view) => result matches Err(error) && error@ == view,
            None => result == Ok::<(), Error>(()) && visited(
                file@,
                whole,
                layout@,
                from + symbols@.len(),
            ).functions == function_list(final(functions)@),
        },
{
    let ghost count = symbols@.len();
    let mut i: usize = 0;
    while i < symbols.len()
        invariant
            count == symbols@.len(),
            i <= count,
            from + count <= whole.len(),
            whole.subrange(from as int, (from + count) as int) == object_file::symbol_views(symbols@),
            visited(file@, whole, layout@, from + i as nat).error is None,
            visited(file@, whole, layout@, from + i as nat).functions == function_list(
                functions@,
            ),
        decreases count - i,
    {
        let symbol: &Symbol = &symbols[i];
        let ghost next = (from + i + 1) as nat;
        proof {
            assert(whole.subrange(from as int, (from + count) as int)[i as int] == whole[from + i]);
            assert(object_file::symbol_views(symbols@)[i as int] == symbol@);
            if visited(file@, whole, layout@, next).error is Some {
                lemma_visit_stops(file@, whole, layout@, next, from + count);
            }
        }
        let section: Option<Result<Section, String>> = match symbol.section {
            Some(index) => if layout.is_relocatable() {
                Some(file.section(index))
            } else {
                None
            },
            None => None,
        };
        if let Some(function) = symbol_function(symbol, layout, section)? {
            let ghost before = function_list(functions@);
            let ghost view = function@;
            functions.push(function);
            assert(function_list(functions@) =~= before.push(view));
        }
        i = i + 1;
    }
    Ok(())
}

/// Finds the functions of a file's symbols.
pub fn visit_symbols(file: &ObjectFile<'_>, layout: &AddressLayout) -> (result: Result<
    Vec<SymbolFunction>,
    Error,
>)
    ensures
        match file_functions(file@, layout@).error {
            Some(view) => result matches Err(error) && error@ == view,
            None => result matches Ok(functions) && function_list(functions@) == file_functions(
                file@,
                layout@,
            ).functions,
        },
{
    let mut functions: Vec<SymbolFunction> = Vec::new();
    let symbols = file.symbols();
    let dynamic = file.dynamic_symbols();
    let ghost whole = all_symbols(file@);
    let ghost first = symbols@.len();
    proof {
        assert(function_list(functions@) =~= Seq::<SymbolFunctionView>::empty());
        assert(whole.subrange(0, first as int) =~= object_file::symbol_views(symbols@));
        assert(whole.subrange(first as int, whole.len() as int) =~= object_file::symbol_views(
            dynamic@,
        ));
        if visited(file@, whole, layout@, first).error is Some {
            lemma_visit_stops(file@, whole, layout@, first, whole.len());
        }
    }
    visit_list(file, layout, &symbols, &mut functions, Ghost(whole), Ghost(0nat))?;
    visit_list(file, layout, &dynamic, &mut functions, Ghost(whole), Ghost(first))?;
    Ok(functions)
}

} // verus!
