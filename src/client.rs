use vstd::prelude::*;

verus! {

/// Identifiers of the wallet window's controls, events and resources.
#[derive(Clone, Debug, Hash)]
pub enum AppId {
    MainWindow,
    PrivateKeyInput,
    GeneratePrivateKeyButton,
    CopyPrivateKeyButton,
    AddressInput,
    GenerateAddressButton,
    CopyAddressButton,
    NodesCB,
    NodeAddressInput,
    NodeRemoveButton,
    NodeAddButton,
    SendToInput,
    SendAmountInput,
    SendButton,
    RefreshBalanceButton,
    StatusLabel,
    BalanceLabel,
    TransactionsList,
    Label(u8),
    GeneratePrivateKey,
    GenerateAddress,
    AddNeighbor,
    RemoveNeighbor,
    Send,
    MainWindowLoad,
    MainFont,
    TextFont,
    SmallTextFont,
}

/// Placeholder action of the wallet's send path: it does nothing.
pub fn send_transaction() {
}

} // verus!
