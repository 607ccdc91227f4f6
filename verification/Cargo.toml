[package]
name = "portfolio"
version = "0.1.0"
edition = "2021"
publish = false

[dependencies]
dioxus = { version = "=0.6.3", features = ["web"] }
wasm-bindgen = "=0.2.99"
js-sys = "=0.3.76"
web-sys = { version = "=0.3.76", features = ["Window", "Document", "Element", "HtmlElement", "Node", "EventTarget", "Event", "HtmlCanvasElement", "HtmlInputElement", "HtmlSelectElement", "CanvasRenderingContext2d", "DomRect", "DomTokenList", "Storage", "MediaQueryList", "AudioContext", "AudioContextState", "BaseAudioContext", "AudioNode", "AudioParam", "AudioDestinationNode", "AudioScheduledSourceNode", "OscillatorNode", "OscillatorType", "GainNode"] }
