[package]
name = "asciidoc_editor"
version = "0.1.0"
edition = "2021"
publish = false

[dependencies]
regex = "1"
asciidoc-html5 = "*"
leptos = { version = "*", features = ["csr"] }
wasm-bindgen = "0.2"
js-sys = "0.3"
console_error_panic_hook = "0.1"
web-sys = { version = "0.3", features = ["Blob", "BlobPropertyBag", "CharacterData", "Document", "DocumentFragment", "DomRect", "DomTokenList", "Element", "Event", "EventTarget", "File", "FileList", "FileReader", "HtmlAnchorElement", "HtmlDocument", "HtmlElement", "HtmlHeadElement", "HtmlIFrameElement", "HtmlInputElement", "HtmlPreElement", "HtmlTextAreaElement", "KeyboardEvent", "Node", "NodeList", "Range", "ScrollIntoViewOptions", "ScrollLogicalPosition", "Selection", "Storage", "Text", "Url", "Window", "console"] }
