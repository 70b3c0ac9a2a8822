//! BitTorrent client identification from the peer id prefix, and the
//! display names of the client tags.
use vstd::prelude::*;

verus! {

pub const UNKNOWN: u8 = 0;
pub const QBITTORRENT: u8 = 1;
pub const TRANSMISSION: u8 = 2;
pub const UTORRENT: u8 = 3;
pub const BITTORRENT: u8 = 4;
pub const LIBTORRENT: u8 = 5;
pub const BITCOMET: u8 = 6;
pub const DELUGE: u8 = 7;
pub const VUZE: u8 = 8;
pub const BIGLYBT: u8 = 9;
pub const XUNLEI: u8 = 10;
pub const XUNLEI_FAST: u8 = 11;
pub const ARIA2: u8 = 12;
pub const FDM: u8 = 13;
pub const MAINLINE: u8 = 14;
pub const TIXATI: u8 = 15;
pub const WEBTORRENT: u8 = 16;
pub const DANPLAY: u8 = 17;
pub const KTORRENT: u8 = 18;
pub const RTORRENT: u8 = 19;
pub const ARES: u8 = 20;
pub const SHAREAZA: u8 = 21;
pub const TORRENT_STORM: u8 = 22;
pub const HALITE: u8 = 23;
pub const EBIT: u8 = 24;
pub const BITBUDDY: u8 = 25;
pub const BITLORD: u8 = 26;
pub const BITWOMBAT: u8 = 27;
pub const CTORRENT: u8 = 28;
pub const FILECROC: u8 = 29;
pub const FROSTWIRE: u8 = 30;
pub const GETRIGHT: u8 = 31;
pub const GSTORRENT: u8 = 32;
pub const GOPEED: u8 = 33;
pub const JSTORRENT: u8 = 34;
pub const KGET: u8 = 35;
pub const LEECHCRAFT: u8 = 36;
pub const LH_ABC: u8 = 37;
pub const LINKAGE: u8 = 38;
pub const LPHANT: u8 = 39;
pub const LIMEWIRE: u8 = 40;
pub const MONOTORRENT: u8 = 41;
pub const MEDIAGET: u8 = 42;
pub const PICO: u8 = 43;
pub const BITPI: u8 = 44;
pub const PHOENIX: u8 = 45;
pub const TORRENTVILLA: u8 = 46;
pub const MC: u8 = 47;
pub const BT_NEXT: u8 = 48;
pub const ONESWARM: u8 = 49;
pub const OMEGA: u8 = 50;
pub const CACHELOGIC: u8 = 51;
pub const POPCORN: u8 = 52;
pub const PANDO: u8 = 53;
pub const PEERPROJECT: u8 = 54;
pub const QQD: u8 = 55;
pub const RAIN: u8 = 56;
pub const RQ: u8 = 57;
pub const RUM: u8 = 58;
pub const RETRIEVER: u8 = 59;
pub const REZ: u8 = 60;
pub const SWIFTBIT: u8 = 61;
pub const GS_TORRENT: u8 = 62;
pub const SHARENET: u8 = 63;
pub const STELLAR: u8 = 64;
pub const TORRENT_GO: u8 = 65;
pub const TORRENT_NET: u8 = 66;
pub const TORRENT_STORM2: u8 = 67;
pub const TUOTU: u8 = 68;
pub const TTORRENT: u8 = 69;
pub const TORREX: u8 = 70;
pub const ULEECHER: u8 = 71;
pub const BITLET: u8 = 72;
pub const FIRETORRENT: u8 = 73;
pub const VAGAA: u8 = 74;
pub const XFPLAY: u8 = 75;
pub const XANTORRENT: u8 = 76;
pub const XTORRENT: u8 = 77;
pub const ZIPTORRENT: u8 = 78;
pub const ATORRENT: u8 = 79;
pub const ZONA: u8 = 80;
pub const BITSPIRIT: u8 = 81;
pub const AVICORA: u8 = 82;
pub const BITPUMP: u8 = 83;
pub const ADM: u8 = 84;
pub const AZTORRENT: u8 = 85;
pub const ENHANCED_CTORRENT: u8 = 86;
pub const DTORRENT: u8 = 87;
pub const PROPAGATE: u8 = 88;
pub const ELECTRIC_SHEEP: u8 = 89;
pub const FREEBOX: u8 = 90;
pub const FOXTORRENT: u8 = 91;
pub const FOLX: u8 = 92;
pub const NETDISK: u8 = 93;
pub const MIRO: u8 = 94;
pub const BITTORRENT_SDK: u8 = 95;
pub const BWS: u8 = 96;
pub const LIII: u8 = 97;
pub const MLDONKEY: u8 = 98;
pub const BM: u8 = 99;
pub const ALLPEERS: u8 = 100;
pub const QVOD: u8 = 101;
pub const ANIMEKO: u8 = 102;

/// Display name of a client tag; "Unknown" for tags without a name.
pub open spec fn client_name_text(tag: u8) -> Seq<char> {
    if tag == QBITTORRENT {
        "qBittorrent"@
    } else if tag == TRANSMISSION {
        "Transmission"@
    } else if tag == UTORRENT {
        "uTorrent"@
    } else if tag == BITTORRENT {
        "BitTorrent"@
    } else if tag == LIBTORRENT {
        "libtorrent"@
    } else if tag == BITCOMET {
        "BitComet"@
    } else if tag == DELUGE {
        "Deluge"@
    } else if tag == VUZE {
        "Vuze"@
    } else if tag == BIGLYBT {
        "BiglyBT"@
    } else if tag == XUNLEI {
        "Xunlei"@
    } else if tag == XUNLEI_FAST {
        "Xunlei Fast"@
    } else if tag == ARIA2 {
        "Aria2"@
    } else if tag == FDM {
        "FDM"@
    } else if tag == MAINLINE {
        "Mainline"@
    } else if tag == TIXATI {
        "Tixati"@
    } else if tag == WEBTORRENT {
        "WebTorrent"@
    } else if tag == DANPLAY {
        "DanDanPlay"@
    } else if tag == KTORRENT {
        "KTorrent"@
    } else if tag == RTORRENT {
        "rTorrent"@
    } else if tag == ARES {
        "Ares"@
    } else if tag == SHAREAZA {
        "Shareaza"@
    } else if tag == TORRENT_STORM {
        "TorrentStorm"@
    } else if tag == HALITE {
        "Halite"@
    } else if tag == EBIT {
        "EBit"@
    } else if tag == BITBUDDY {
        "BitBuddy"@
    } else if tag == BITLORD {
        "BitLord"@
    } else if tag == BITWOMBAT {
        "BitWombat"@
    } else if tag == CTORRENT {
        "CTorrent"@
    } else if tag == FILECROC {
        "FileCroc"@
    } else if tag == FROSTWIRE {
        "FrostWire"@
    } else if tag == GETRIGHT {
        "GetRight"@
    } else if tag == GSTORRENT {
        "GSTorrent"@
    } else if tag == GOPEED {
        "Gopeed"@
    } else if tag == JSTORRENT {
        "JSTorrent"@
    } else if tag == KGET {
        "KGet"@
    } else if tag == LEECHCRAFT {
        "LeechCraft"@
    } else if tag == LH_ABC {
        "LH-ABC"@
    } else if tag == LINKAGE {
        "linkage"@
    } else if tag == LPHANT {
        "Lphant"@
    } else if tag == LIMEWIRE {
        "LimeWire"@
    } else if tag == MONOTORRENT {
        "MonoTorrent"@
    } else if tag == MEDIAGET {
        "MediaGet"@
    } else if tag == PICO {
        "picotorrent"@
    } else if tag == BITPI {
        "Bitpirit"@
    } else if tag == PHOENIX {
        "pHoeniX"@
    } else if tag == TORRENTVILLA {
        "Torrentvilla"@
    } else if tag == MC {
        "MC"@
    } else if tag == BT_NEXT {
        "BT Next"@
    } else if tag == ONESWARM {
        "OneSwarm"@
    } else if tag == OMEGA {
        "OmegaTorrent"@
    } else if tag == CACHELOGIC {
        "CacheLogic"@
    } else if tag == POPCORN {
        "Popcorn Time"@
    } else if tag == PANDO {
        "Pando"@
    } else if tag == PEERPROJECT {
        "PeerProject"@
    } else if tag == QQD {
        "QQ旋风"@
    } else if tag == RAIN {
        "Rain"@
    } else if tag == RQ {
        "rQ"@
    } else if tag == RUM {
        "RUM Torrent"@
    } else if tag == RETRIEVER {
        "Retriever"@
    } else if tag == REZ {
        "RezTorrent"@
    } else if tag == SWIFTBIT {
        "SwiftBit"@
    } else if tag == GS_TORRENT {
        "GS Torrent"@
    } else if tag == SHARENET {
        "ShareNET"@
    } else if tag == STELLAR {
        "StellarPlayer"@
    } else if tag == TORRENT_GO {
        "Torrent GO"@
    } else if tag == TORRENT_NET {
        "Torrent.NET"@
    } else if tag == TORRENT_STORM2 {
        "TorrentStorm"@
    } else if tag == TUOTU {
        "TuoTu"@
    } else if tag == TTORRENT {
        "tTorrent"@
    } else if tag == TORREX {
        "Torrex Pro"@
    } else if tag == ULEECHER {
        "uLeecher"@
    } else if tag == BITLET {
        "Bitlet"@
    } else if tag == FIRETORRENT {
        "FireTorrent"@
    } else if tag == VAGAA {
        "Vagaa"@
    } else if tag == XFPLAY {
        "Xfplay"@
    } else if tag == XANTORRENT {
        "XanTorrent"@
    } else if tag == XTORRENT {
        "XTorrent"@
    } else if tag == ZIPTORRENT {
        "ZipTorrent"@
    } else if tag == ATORRENT {
        "aTorrent"@
    } else if tag == ZONA {
        "Zona"@
    } else if tag == BITSPIRIT {
        "BitSpirit"@
    } else if tag == AVICORA {
        "Avicora"@
    } else if tag == BITPUMP {
        "BitPump"@
    } else if tag == ADM {
        "ADM"@
    } else if tag == AZTORRENT {
        "AzTorrent"@
    } else if tag == ENHANCED_CTORRENT {
        "Enhanced CTorrent"@
    } else if tag == DTORRENT {
        "DTorrent"@
    } else if tag == PROPAGATE {
        "Propagate"@
    } else if tag == ELECTRIC_SHEEP {
        "Electric Sheep"@
    } else if tag == FREEBOX {
        "Freebox"@
    } else if tag == FOXTORRENT {
        "FoxTorrent"@
    } else if tag == FOLX {
        "folx"@
    } else if tag == NETDISK {
        "netdisk"@
    } else if tag == MIRO {
        "Miro"@
    } else if tag == BITTORRENT_SDK {
        "BT SDK"@
    } else if tag == BWS {
        "BitsOnWheels"@
    } else if tag == LIII {
        "LIII"@
    } else if tag == MLDONKEY {
        "MLDonkey"@
    } else if tag == BM {
        "BitMagnet"@
    } else if tag == ALLPEERS {
        "AllPeers"@
    } else if tag == QVOD {
        "QVOD"@
    } else if tag == ANIMEKO {
        "Animeko"@
    } else {
        "Unknown"@
    }
}

/// Name for a client tag value. Returns "Unknown" for tag 0.
pub fn client_name(tag: u8) -> (r: &'static str)
    ensures
        r@ == client_name_text(tag),
{
    if tag == QBITTORRENT {
        "qBittorrent"
    } else if tag == TRANSMISSION {
        "Transmission"
    } else if tag == UTORRENT {
        "uTorrent"
    } else if tag == BITTORRENT {
        "BitTorrent"
    } else if tag == LIBTORRENT {
        "libtorrent"
    } else if tag == BITCOMET {
        "BitComet"
    } else if tag == DELUGE {
        "Deluge"
    } else if tag == VUZE {
        "Vuze"
    } else if tag == BIGLYBT {
        "BiglyBT"
    } else if tag == XUNLEI {
        "Xunlei"
    } else if tag == XUNLEI_FAST {
        "Xunlei Fast"
    } else if tag == ARIA2 {
        "Aria2"
    } else if tag == FDM {
        "FDM"
    } else if tag == MAINLINE {
        "Mainline"
    } else if tag == TIXATI {
        "Tixati"
    } else if tag == WEBTORRENT {
        "WebTorrent"
    } else if tag == DANPLAY {
        "DanDanPlay"
    } else if tag == KTORRENT {
        "KTorrent"
    } else if tag == RTORRENT {
        "rTorrent"
    } else if tag == ARES {
        "Ares"
    } else if tag == SHAREAZA {
        "Shareaza"
    } else if tag == TORRENT_STORM {
        "TorrentStorm"
    } else if tag == HALITE {
        "Halite"
    } else if tag == EBIT {
        "EBit"
    } else if tag == BITBUDDY {
        "BitBuddy"
    } else if tag == BITLORD {
        "BitLord"
    } else if tag == BITWOMBAT {
        "BitWombat"
    } else if tag == CTORRENT {
        "CTorrent"
    } else if tag == FILECROC {
        "FileCroc"
    } else if tag == FROSTWIRE {
        "FrostWire"
    } else if tag == GETRIGHT {
        "GetRight"
    } else if tag == GSTORRENT {
        "GSTorrent"
    } else if tag == GOPEED {
        "Gopeed"
    } else if tag == JSTORRENT {
        "JSTorrent"
    } else if tag == KGET {
        "KGet"
    } else if tag == LEECHCRAFT {
        "LeechCraft"
    } else if tag == LH_ABC {
        "LH-ABC"
    } else if tag == LINKAGE {
        "linkage"
    } else if tag == LPHANT {
        "Lphant"
    } else if tag == LIMEWIRE {
        "LimeWire"
    } else if tag == MONOTORRENT {
        "MonoTorrent"
    } else if tag == MEDIAGET {
        "MediaGet"
    } else if tag == PICO {
        "picotorrent"
    } else if tag == BITPI {
        "Bitpirit"
    } else if tag == PHOENIX {
        "pHoeniX"
    } else if tag == TORRENTVILLA {
        "Torrentvilla"
    } else if tag == MC {
        "MC"
    } else if tag == BT_NEXT {
        "BT Next"
    } else if tag == ONESWARM {
        "OneSwarm"
    } else if tag == OMEGA {
        "OmegaTorrent"
    } else if tag == CACHELOGIC {
        "CacheLogic"
    } else if tag == POPCORN {
        "Popcorn Time"
    } else if tag == PANDO {
        "Pando"
    } else if tag == PEERPROJECT {
        "PeerProject"
    } else if tag == QQD {
        "QQ旋风"
    } else if tag == RAIN {
        "Rain"
    } else if tag == RQ {
        "rQ"
    } else if tag == RUM {
        "RUM Torrent"
    } else if tag == RETRIEVER {
        "Retriever"
    } else if tag == REZ {
        "RezTorrent"
    } else if tag == SWIFTBIT {
        "SwiftBit"
    } else if tag == GS_TORRENT {
        "GS Torrent"
    } else if tag == SHARENET {
        "ShareNET"
    } else if tag == STELLAR {
        "StellarPlayer"
    } else if tag == TORRENT_GO {
        "Torrent GO"
    } else if tag == TORRENT_NET {
        "Torrent.NET"
    } else if tag == TORRENT_STORM2 {
        "TorrentStorm"
    } else if tag == TUOTU {
        "TuoTu"
    } else if tag == TTORRENT {
        "tTorrent"
    } else if tag == TORREX {
        "Torrex Pro"
    } else if tag == ULEECHER {
        "uLeecher"
    } else if tag == BITLET {
        "Bitlet"
    } else if tag == FIRETORRENT {
        "FireTorrent"
    } else if tag == VAGAA {
        "Vagaa"
    } else if tag == XFPLAY {
        "Xfplay"
    } else if tag == XANTORRENT {
        "XanTorrent"
    } else if tag == XTORRENT {
        "XTorrent"
    } else if tag == ZIPTORRENT {
        "ZipTorrent"
    } else if tag == ATORRENT {
        "aTorrent"
    } else if tag == ZONA {
        "Zona"
    } else if tag == BITSPIRIT {
        "BitSpirit"
    } else if tag == AVICORA {
        "Avicora"
    } else if tag == BITPUMP {
        "BitPump"
    } else if tag == ADM {
        "ADM"
    } else if tag == AZTORRENT {
        "AzTorrent"
    } else if tag == ENHANCED_CTORRENT {
        "Enhanced CTorrent"
    } else if tag == DTORRENT {
        "DTorrent"
    } else if tag == PROPAGATE {
        "Propagate"
    } else if tag == ELECTRIC_SHEEP {
        "Electric Sheep"
    } else if tag == FREEBOX {
        "Freebox"
    } else if tag == FOXTORRENT {
        "FoxTorrent"
    } else if tag == FOLX {
        "folx"
    } else if tag == NETDISK {
        "netdisk"
    } else if tag == MIRO {
        "Miro"
    } else if tag == BITTORRENT_SDK {
        "BT SDK"
    } else if tag == BWS {
        "BitsOnWheels"
    } else if tag == LIII {
        "LIII"
    } else if tag == MLDONKEY {
        "MLDonkey"
    } else if tag == BM {
        "BitMagnet"
    } else if tag == ALLPEERS {
        "AllPeers"
    } else if tag == QVOD {
        "QVOD"
    } else if tag == ANIMEKO {
        "Animeko"
    } else {
        "Unknown"
    }
}

/// The client tag of an Azureus-style peer id `-XY...`, by its two
/// characters after the dash; zero for unknown pairs.
pub open spec fn azureus_table(x: u8, y: u8) -> u8 {
    if x == 65 && y == 126 {
        // A~
        ARES
    } else if x == 65 && y == 71 {
        // AG
        ARES
    } else if x == 65 && y == 78 {
        // AN
        ARES
    } else if x == 65 && y == 82 {
        // AR
        ARES
    } else if x == 65 && y == 76 {
        // AL
        ANIMEKO
    } else if x == 65 && y == 86 {
        // AV
        AVICORA
    } else if x == 65 && y == 88 {
        // AX
        BITPUMP
    } else if x == 65 && y == 68 {
        // AD
        ADM
    } else if x == 65 && y == 84 {
        // AT
        AZTORRENT
    } else if x == 65 && y == 90 {
        // AZ
        VUZE
    } else if x == 66 && y == 66 {
        // BB
        BITBUDDY
    } else if x == 66 && y == 67 {
        // BC
        BITCOMET
    } else if x == 66 && y == 69 {
        // BE
        BITTORRENT_SDK
    } else if x == 66 && y == 73 {
        // BI
        BIGLYBT
    } else if x == 66 && y == 76 {
        // BL
        BITLORD
    } else if x == 66 && y == 84 {
        // BT
        BITTORRENT
    } else if x == 66 && y == 87 {
        // BW
        BITWOMBAT
    } else if x == 67 && y == 66 {
        // CB
        SHAREAZA
    } else if x == 67 && y == 68 {
        // CD
        ENHANCED_CTORRENT
    } else if x == 67 && y == 84 {
        // CT
        CTORRENT
    } else if x == 68 && y == 69 {
        // DE
        DELUGE
    } else if x == 68 && y == 84 {
        // DT
        DTORRENT
    } else if x == 68 && y == 80 {
        // DP
        PROPAGATE
    } else if x == 68 && y == 76 {
        // DL
        DANPLAY
    } else if x == 69 && y == 66 {
        // EB
        EBIT
    } else if x == 69 && y == 83 {
        // ES
        ELECTRIC_SHEEP
    } else if x == 70 && y == 71 {
        // FG
        VAGAA
    } else if x == 70 && y == 67 {
        // FC
        FILECROC
    } else if x == 70 && y == 87 {
        // FW
        FROSTWIRE
    } else if x == 70 && y == 88 {
        // FX
        FREEBOX
    } else if x == 70 && y == 84 {
        // FT
        FOXTORRENT
    } else if x == 70 && y == 76 {
        // FL
        FOLX
    } else if x == 71 && y == 82 {
        // GR
        GETRIGHT
    } else if x == 71 && y == 83 {
        // GS
        GSTORRENT
    } else if x == 71 && y == 80 {
        // GP
        GOPEED
    } else if x == 72 && y == 76 {
        // HL
        HALITE
    } else if x == 74 && y == 83 {
        // JS
        JSTORRENT
    } else if x == 75 && y == 71 {
        // KG
        KGET
    } else if x == 75 && y == 84 {
        // KT
        KTORRENT
    } else if x == 76 && y == 67 {
        // LC
        LEECHCRAFT
    } else if x == 76 && y == 72 {
        // LH
        LH_ABC
    } else if x == 76 && y == 75 {
        // LK
        LINKAGE
    } else if x == 76 && y == 80 {
        // LP
        LPHANT
    } else if x == 76 && y == 84 {
        // LT
        LIBTORRENT
    } else if x == 108 && y == 114 {
        // lr
        TORRENTVILLA
    } else if x == 76 && y == 87 {
        // LW
        LIMEWIRE
    } else if x == 77 && y == 79 {
        // MO
        MONOTORRENT
    } else if x == 77 && y == 67 {
        // MC
        MC
    } else if x == 77 && y == 71 {
        // MG
        MEDIAGET
    } else if x == 77 && y == 82 {
        // MR
        MIRO
    } else if x == 78 && y == 69 {
        // NE
        BT_NEXT
    } else if x == 78 && y == 88 {
        // NX
        VAGAA
    } else if x == 79 && y == 83 {
        // OS
        ONESWARM
    } else if x == 79 && y == 84 {
        // OT
        OMEGA
    } else if x == 80 && y == 67 {
        // PC
        CACHELOGIC
    } else if x == 80 && y == 84 {
        // PT
        POPCORN
    } else if x == 80 && y == 68 {
        // PD
        PANDO
    } else if x == 80 && y == 69 {
        // PE
        PEERPROJECT
    } else if x == 80 && y == 73 {
        // PI
        PICO
    } else if x == 83 && y == 80 {
        // SP
        BITSPIRIT
    } else if x == 112 && y == 88 {
        // pX
        PHOENIX
    } else if x == 113 && y == 66 {
        // qB
        QBITTORRENT
    } else if x == 81 && y == 68 {
        // QD
        QQD
    } else if x == 82 && y == 78 {
        // RN
        RAIN
    } else if x == 82 && y == 81 {
        // RQ
        RQ
    } else if x == 82 && y == 77 {
        // RM
        RUM
    } else if x == 82 && y == 84 {
        // RT
        RTORRENT
    } else if x == 82 && y == 90 {
        // RZ
        REZ
    } else if x == 83 && y == 126 {
        // S~
        SHAREAZA
    } else if x == 83 && y == 66 {
        // SB
        SWIFTBIT
    } else if x == 83 && y == 68 {
        // SD
        XUNLEI_FAST
    } else if x == 83 && y == 71 {
        // SG
        GS_TORRENT
    } else if x == 83 && y == 78 {
        // SN
        SHARENET
    } else if x == 83 && y == 90 {
        // SZ
        SHAREAZA
    } else if x == 84 && y == 71 {
        // TG
        TORRENT_GO
    } else if x == 84 && y == 78 {
        // TN
        TORRENT_NET
    } else if x == 84 && y == 82 {
        // TR
        TRANSMISSION
    } else if x == 84 && y == 83 {
        // TS
        TORRENT_STORM
    } else if x == 84 && y == 84 {
        // TT
        TUOTU
    } else if x == 116 && y == 84 {
        // tT
        TTORRENT
    } else if x == 84 && y == 88 {
        // TX
        TORREX
    } else if x == 85 && y == 76 {
        // UL
        ULEECHER
    } else if x == 85 && y == 69 {
        // UE
        UTORRENT
    } else if x == 85 && y == 84 {
        // UT
        UTORRENT
    } else if x == 85 && y == 77 {
        // UM
        UTORRENT
    } else if x == 85 && y == 87 {
        // UW
        UTORRENT
    } else if x == 87 && y == 68 {
        // WD
        WEBTORRENT
    } else if x == 87 && y == 84 {
        // WT
        BITLET
    } else if x == 87 && y == 87 {
        // WW
        WEBTORRENT
    } else if x == 87 && y == 89 {
        // WY
        FIRETORRENT
    } else if x == 86 && y == 71 {
        // VG
        VAGAA
    } else if x == 88 && y == 70 {
        // XF
        XFPLAY
    } else if x == 88 && y == 76 {
        // XL
        XUNLEI
    } else if x == 88 && y == 84 {
        // XT
        XANTORRENT
    } else if x == 88 && y == 88 {
        // XX
        XTORRENT
    } else if x == 88 && y == 67 {
        // XC
        XTORRENT
    } else if x == 90 && y == 84 {
        // ZT
        ZIPTORRENT
    } else if x == 55 && y == 84 {
        // 7T
        ATORRENT
    } else if x == 90 && y == 79 {
        // ZO
        ZONA
    } else if x == 52 && y == 106 {
        // 4j
        DTORRENT
    } else if x == 53 && y == 51 {
        // 53
        LIII
    } else if x == 66 && y == 79 {
        // BO
        BWS
    } else if x == 77 && y == 76 {
        // ML
        MLDONKEY
    } else if x == 81 && y == 86 {
        // QV
        QVOD
    } else {
        UNKNOWN
    }
}

fn azureus_tag(x: u8, y: u8) -> (r: u8)
    ensures
        r == azureus_table(x, y),
{
    if x == 65 && y == 126 {
        // A~
        ARES
    } else if x == 65 && y == 71 {
        // AG
        ARES
    } else if x == 65 && y == 78 {
        // AN
        ARES
    } else if x == 65 && y == 82 {
        // AR
        ARES
    } else if x == 65 && y == 76 {
        // AL
        ANIMEKO
    } else if x == 65 && y == 86 {
        // AV
        AVICORA
    } else if x == 65 && y == 88 {
        // AX
        BITPUMP
    } else if x == 65 && y == 68 {
        // AD
        ADM
    } else if x == 65 && y == 84 {
        // AT
        AZTORRENT
    } else if x == 65 && y == 90 {
        // AZ
        VUZE
    } else if x == 66 && y == 66 {
        // BB
        BITBUDDY
    } else if x == 66 && y == 67 {
        // BC
        BITCOMET
    } else if x == 66 && y == 69 {
        // BE
        BITTORRENT_SDK
    } else if x == 66 && y == 73 {
        // BI
        BIGLYBT
    } else if x == 66 && y == 76 {
        // BL
        BITLORD
    } else if x == 66 && y == 84 {
        // BT
        BITTORRENT
    } else if x == 66 && y == 87 {
        // BW
        BITWOMBAT
    } else if x == 67 && y == 66 {
        // CB
        SHAREAZA
    } else if x == 67 && y == 68 {
        // CD
        ENHANCED_CTORRENT
    } else if x == 67 && y == 84 {
        // CT
        CTORRENT
    } else if x == 68 && y == 69 {
        // DE
        DELUGE
    } else if x == 68 && y == 84 {
        // DT
        DTORRENT
    } else if x == 68 && y == 80 {
        // DP
        PROPAGATE
    } else if x == 68 && y == 76 {
        // DL
        DANPLAY
    } else if x == 69 && y == 66 {
        // EB
        EBIT
    } else if x == 69 && y == 83 {
        // ES
        ELECTRIC_SHEEP
    } else if x == 70 && y == 71 {
        // FG
        VAGAA
    } else if x == 70 && y == 67 {
        // FC
        FILECROC
    } else if x == 70 && y == 87 {
        // FW
        FROSTWIRE
    } else if x == 70 && y == 88 {
        // FX
        FREEBOX
    } else if x == 70 && y == 84 {
        // FT
        FOXTORRENT
    } else if x == 70 && y == 76 {
        // FL
        FOLX
    } else if x == 71 && y == 82 {
        // GR
        GETRIGHT
    } else if x == 71 && y == 83 {
        // GS
        GSTORRENT
    } else if x == 71 && y == 80 {
        // GP
        GOPEED
    } else if x == 72 && y == 76 {
        // HL
        HALITE
    } else if x == 74 && y == 83 {
        // JS
        JSTORRENT
    } else if x == 75 && y == 71 {
        // KG
        KGET
    } else if x == 75 && y == 84 {
        // KT
        KTORRENT
    } else if x == 76 && y == 67 {
        // LC
        LEECHCRAFT
    } else if x == 76 && y == 72 {
        // LH
        LH_ABC
    } else if x == 76 && y == 75 {
        // LK
        LINKAGE
    } else if x == 76 && y == 80 {
        // LP
        LPHANT
    } else if x == 76 && y == 84 {
        // LT
        LIBTORRENT
    } else if x == 108 && y == 114 {
        // lr
        TORRENTVILLA
    } else if x == 76 && y == 87 {
        // LW
        LIMEWIRE
    } else if x == 77 && y == 79 {
        // MO
        MONOTORRENT
    } else if x == 77 && y == 67 {
        // MC
        MC
    } else if x == 77 && y == 71 {
        // MG
        MEDIAGET
    } else if x == 77 && y == 82 {
        // MR
        MIRO
    } else if x == 78 && y == 69 {
        // NE
        BT_NEXT
    } else if x == 78 && y == 88 {
        // NX
        VAGAA
    } else if x == 79 && y == 83 {
        // OS
        ONESWARM
    } else if x == 79 && y == 84 {
        // OT
        OMEGA
    } else if x == 80 && y == 67 {
        // PC
        CACHELOGIC
    } else if x == 80 && y == 84 {
        // PT
        POPCORN
    } else if x == 80 && y == 68 {
        // PD
        PANDO
    } else if x == 80 && y == 69 {
        // PE
        PEERPROJECT
    } else if x == 80 && y == 73 {
        // PI
        PICO
    } else if x == 83 && y == 80 {
        // SP
        BITSPIRIT
    } else if x == 112 && y == 88 {
        // pX
        PHOENIX
    } else if x == 113 && y == 66 {
        // qB
        QBITTORRENT
    } else if x == 81 && y == 68 {
        // QD
        QQD
    } else if x == 82 && y == 78 {
        // RN
        RAIN
    } else if x == 82 && y == 81 {
        // RQ
        RQ
    } else if x == 82 && y == 77 {
        // RM
        RUM
    } else if x == 82 && y == 84 {
        // RT
        RTORRENT
    } else if x == 82 && y == 90 {
        // RZ
        REZ
    } else if x == 83 && y == 126 {
        // S~
        SHAREAZA
    } else if x == 83 && y == 66 {
        // SB
        SWIFTBIT
    } else if x == 83 && y == 68 {
        // SD
        XUNLEI_FAST
    } else if x == 83 && y == 71 {
        // SG
        GS_TORRENT
    } else if x == 83 && y == 78 {
        // SN
        SHARENET
    } else if x == 83 && y == 90 {
        // SZ
        SHAREAZA
    } else if x == 84 && y == 71 {
        // TG
        TORRENT_GO
    } else if x == 84 && y == 78 {
        // TN
        TORRENT_NET
    } else if x == 84 && y == 82 {
        // TR
        TRANSMISSION
    } else if x == 84 && y == 83 {
        // TS
        TORRENT_STORM
    } else if x == 84 && y == 84 {
        // TT
        TUOTU
    } else if x == 116 && y == 84 {
        // tT
        TTORRENT
    } else if x == 84 && y == 88 {
        // TX
        TORREX
    } else if x == 85 && y == 76 {
        // UL
        ULEECHER
    } else if x == 85 && y == 69 {
        // UE
        UTORRENT
    } else if x == 85 && y == 84 {
        // UT
        UTORRENT
    } else if x == 85 && y == 77 {
        // UM
        UTORRENT
    } else if x == 85 && y == 87 {
        // UW
        UTORRENT
    } else if x == 87 && y == 68 {
        // WD
        WEBTORRENT
    } else if x == 87 && y == 84 {
        // WT
        BITLET
    } else if x == 87 && y == 87 {
        // WW
        WEBTORRENT
    } else if x == 87 && y == 89 {
        // WY
        FIRETORRENT
    } else if x == 86 && y == 71 {
        // VG
        VAGAA
    } else if x == 88 && y == 70 {
        // XF
        XFPLAY
    } else if x == 88 && y == 76 {
        // XL
        XUNLEI
    } else if x == 88 && y == 84 {
        // XT
        XANTORRENT
    } else if x == 88 && y == 88 {
        // XX
        XTORRENT
    } else if x == 88 && y == 67 {
        // XC
        XTORRENT
    } else if x == 90 && y == 84 {
        // ZT
        ZIPTORRENT
    } else if x == 55 && y == 84 {
        // 7T
        ATORRENT
    } else if x == 90 && y == 79 {
        // ZO
        ZONA
    } else if x == 52 && y == 106 {
        // 4j
        DTORRENT
    } else if x == 53 && y == 51 {
        // 53
        LIII
    } else if x == 66 && y == 79 {
        // BO
        BWS
    } else if x == 77 && y == 76 {
        // ML
        MLDONKEY
    } else if x == 81 && y == 86 {
        // QV
        QVOD
    } else {
        UNKNOWN
    }
}

/// `id` begins with the bytes of `p`.
pub open spec fn has_prefix(id: Seq<u8>, p: Seq<u8>) -> bool {
    p.len() <= id.len() && id.subrange(0, p.len() as int) == p
}

/// The client tag a peer id identifies: the Azureus table for ids that begin
/// with `-`, else the first matching non-Azureus prefix, else unknown.
pub open spec fn identify_tag(id: Seq<u8>) -> u8 {
    if id[0] == 45 {
        azureus_table(id[1], id[2])
    } else if has_prefix(id, seq![65u8, 50, 45]) {
        // "A2-"
        ARIA2
    } else if has_prefix(id, seq![66u8, 77]) {
        // "BM"
        BM
    } else if has_prefix(id, seq![98u8, 116, 102, 97, 110, 115]) {
        // "btfans"
        SHAREAZA
    } else if has_prefix(id, seq![70u8, 68, 54]) {
        // "FD6"
        FDM
    } else if has_prefix(id, seq![77u8, 54, 45]) {
        // "M6-"
        MAINLINE
    } else if has_prefix(id, seq![77u8, 55, 45]) {
        // "M7-"
        MAINLINE
    } else if has_prefix(id, seq![77u8, 56, 45]) {
        // "M8-"
        MAINLINE
    } else if has_prefix(id, seq![77u8, 71, 45]) {
        // "MG-"
        MEDIAGET
    } else if has_prefix(id, seq![110u8, 101, 116]) {
        // "net"
        NETDISK
    } else if has_prefix(id, seq![84u8, 73, 88]) {
        // "TIX"
        TIXATI
    } else {
        UNKNOWN
    }
}

fn starts_with(id: &[u8; 20], p: &[u8]) -> (r: bool)
    ensures
        r == has_prefix(id@, p@),
{
    if p.len() > 20 {
        return false;
    }
    let mut i: usize = 0;
    while i < p.len()
        invariant
            p@.len() <= 20,
            i <= p@.len(),
            forall|j: int| 0 <= j < i ==> id@[j] == p@[j],
        decreases p@.len() - i,
    {
        if id[i] != p[i] {
            proof {
                assert(id@.subrange(0, p@.len() as int)[i as int] != p@[i as int]);
            }
            return false;
        }
        i = i + 1;
    }
    assert(id@.subrange(0, p@.len() as int) =~= p@);
    true
}

/// Identifies the BitTorrent client from a peer id; zero means unknown.
pub fn identify(peer_id: &[u8; 20]) -> (r: u8)
    ensures
        r == identify_tag(peer_id@),
{
    if peer_id[0] == 45 {
        return azureus_tag(peer_id[1], peer_id[2]);
    }
    let prefix: [u8; 3] = [65, 50, 45];
    if starts_with(peer_id, prefix.as_slice()) {
        // "A2-"
        return ARIA2;
    }
    let prefix: [u8; 2] = [66, 77];
    if starts_with(peer_id, prefix.as_slice()) {
        // "BM"
        return BM;
    }
    let prefix: [u8; 6] = [98, 116, 102, 97, 110, 115];
    if starts_with(peer_id, prefix.as_slice()) {
        // "btfans"
        return SHAREAZA;
    }
    let prefix: [u8; 3] = [70, 68, 54];
    if starts_with(peer_id, prefix.as_slice()) {
        // "FD6"
        return FDM;
    }
    let prefix: [u8; 3] = [77, 54, 45];
    if starts_with(peer_id, prefix.as_slice()) {
        // "M6-"
        return MAINLINE;
    }
    let prefix: [u8; 3] = [77, 55, 45];
    if starts_with(peer_id, prefix.as_slice()) {
        // "M7-"
        return MAINLINE;
    }
    let prefix: [u8; 3] = [77, 56, 45];
    if starts_with(peer_id, prefix.as_slice()) {
        // "M8-"
        return MAINLINE;
    }
    let prefix: [u8; 3] = [77, 71, 45];
    if starts_with(peer_id, prefix.as_slice()) {
        // "MG-"
        return MEDIAGET;
    }
    let prefix: [u8; 3] = [110, 101, 116];
    if starts_with(peer_id, prefix.as_slice()) {
        // "net"
        return NETDISK;
    }
    let prefix: [u8; 3] = [84, 73, 88];
    if starts_with(peer_id, prefix.as_slice()) {
        // "TIX"
        return TIXATI;
    }
    UNKNOWN
}

} // verus!
